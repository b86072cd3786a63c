//! What the bench tools tell, in plain words.

use vstd::arithmetic::power2::*;
use vstd::prelude::*;

use crate::bench;
use crate::bench::files;
use crate::bench::frequency;
use crate::bench::frequency::Scale;
use crate::bench::report;
use crate::float;
use crate::float::error;
use crate::float::error::{one, tame, units};
use crate::float::Binary;
use crate::ook::analysis;
use crate::ook::bursts;
use crate::ook::detector;
use crate::ook::detector::Burst;
use crate::ook::histogram;
use crate::ook::synthesis;
use crate::proflame;
use crate::proflame::{Frame, Keys, Report};
use crate::radio;
use crate::text;

verus! {

/// A signal barely rises where it is less than ten levels above the noise.
pub proof fn what_barely_rises(noise_floor: u16, signal: u16)
    ensures
        histogram::gap(noise_floor as int, signal as int) < bench::BARELY <==> signal < noise_floor
            + 10,
{
}

/// What a number of units is in hertz: a thousand times as much from one scale
/// to the next, to the nearest.
pub proof fn scales_multiply(value: Binary, scale: Scale)
    requires
        tame(value, 212),
        frequency::in_hertz(value, scale) < u64::MAX,
    ensures
        ({
            let times = match scale {
                Scale::Hertz => 1,
                Scale::Kilohertz => 1_000,
                Scale::Megahertz => 1_000_000,
                Scale::Gigahertz => 1_000_000_000int,
            };
            let hz = frequency::in_hertz(value, scale);
            let exact = units(value) * times;
            &&& 0x20_0000_0000_0000 * ((2 * hz - 1) * one()) <= 0x20_0000_0000_0001 * (2 * exact)
            &&& 0x20_0000_0000_0000 * ((2 * hz + 1) * one()) > 0x1F_FFFF_FFFF_FFFF * (2 * exact)
        }),
{
    lemma_hertz(value, scale);
}

proof fn lemma_hertz(value: Binary, scale: Scale)
    requires
        tame(value, 212),
    ensures
        ({
            let product = float::product(value, float::from_nat(scale.hertz()));
            let exact = units(value) * scale.hertz();
            &&& error::within(units(product) as int, exact as int, 1)
            &&& product matches Binary::Finite { negative, mantissa, exponent } && !negative
                && exponent >= -1074
            &&& frequency::in_hertz(value, scale) < u64::MAX ==> {
                let hz = frequency::in_hertz(value, scale);
                &&& (2 * hz - 1) * one() <= 2 * units(product)
                &&& 2 * units(product) < (2 * hz + 1) * one()
            }
        }),
{
    let times = scale.hertz();
    let unit = float::from_nat(times);
    let product = float::product(value, unit);
    lemma_pow2_pos(1074);
    error::from_nat_exact(times);
    error::product_near(value, unit, 212, 53);
    let o = one();
    let exact = units(value) * times;
    assert(units(value) * (times * o) == exact * o) by (nonlinear_arith)
        requires
            exact == units(value) * times,
    ;
    error::within_divided(units(product) as int, exact as int, 1, o);
    match product {
        Binary::Finite { mantissa, exponent, .. } => {
            error::round_in_units(mantissa, exponent);
        },
        _ => {},
    }
}

/// A whole number of units is that many hertz, exactly.
pub proof fn whole_units_are_exact(value: Binary, whole: nat, scale: Scale)
    requires
        tame(value, 212),
        units(value) == whole * one(),
        whole <= 6_000_000_000,
        scale is Gigahertz ==> whole <= 6_000,
        scale is Megahertz ==> whole <= 6_000_000,
    ensures
        frequency::in_hertz(value, scale) == whole * (match scale {
            Scale::Hertz => 1,
            Scale::Kilohertz => 1_000,
            Scale::Megahertz => 1_000_000,
            Scale::Gigahertz => 1_000_000_000int,
        }),
{
    let times = scale.hertz();
    let product = float::product(value, float::from_nat(times));
    lemma_hertz(value, scale);
    lemma_pow2_pos(1074);
    let x = whole * times;
    assert(x <= 6_000_000_000_000) by (nonlinear_arith)
        requires
            x == whole * times,
            whole <= 6_000_000_000,
            times == 1 || times == 1_000 || (times == 1_000_000 && whole <= 6_000_000) || (times
                == 1_000_000_000 && whole <= 6_000),
    ;
    let o = one() as int;
    let p = units(product) as int;
    assert(units(value) * times == x * o) by (nonlinear_arith)
        requires
            units(value) == whole * o,
            x == whole * times,
    ;
    match product {
        Binary::Finite { mantissa, exponent, .. } => {
            error::round_in_units(mantissa, exponent);
            let w = float::round_magnitude(mantissa, exponent) as int;
            assert(w == x) by (nonlinear_arith)
                requires
                    (2 * w - 1) * o <= 2 * p,
                    2 * p < (2 * w + 1) * o,
                    0x20_0000_0000_0000 * (p - x * o) <= 1 * (x * o),
                    0x20_0000_0000_0000 * (x * o - p) <= 1 * (x * o),
                    0 <= x <= 6_000_000_000_000,
                    o > 0,
            {
                assert(x * o <= 6_000_000_000_000 * o);
                assert(2 * (p - x * o) < o);
                assert(2 * (x * o - p) < o);
                assert((2 * w - 1) * o < (2 * x + 1) * o);
                assert((2 * x - 1) * o < (2 * w + 1) * o);
                assert(2 * w - 1 < 2 * x + 1);
                assert(2 * x - 1 < 2 * w + 1);
            }
        },
        _ => {},
    }
}

/// Whether a text is a number as it is typed: digits, and points.
pub open spec fn is_numeric(text: Seq<char>) -> bool {
    &&& text.len() > 0
    &&& forall|k: int|
        0 <= k < text.len() ==> ('0' <= #[trigger] text[k] && text[k] <= '9') || text[k] == '.'
}

/// Whether two characters are the same letter.
pub open spec fn same_letter(a: char, lower: char) -> bool {
    a == lower || a as int + 32 == lower as int
}

proof fn lemma_stripped(text: Seq<char>)
    requires
        text.len() > 0,
        !frequency::is_space(text[0]),
        !frequency::is_space(text.last()),
    ensures
        frequency::stripped(text) == text,
{
}

/// A number, typed with a scale or without one, with the unit or without it, in
/// capitals or not, is the number and the scale; without a scale it is hertz.
pub proof fn typed_frequencies_are_taken_apart(
    number: Seq<char>,
    letter: char,
    h: char,
    z: char,
    scale: Scale,
)
    requires
        is_numeric(number),
        same_letter(h, 'h'),
        same_letter(z, 'z'),
        scale is Hertz || (scale is Kilohertz && same_letter(letter, 'k')) || (scale is Megahertz
            && same_letter(letter, 'm')) || (scale is Gigahertz && same_letter(letter, 'g')),
    ensures
        ({
            let scaled = if scale is Hertz {
                number
            } else {
                number.push(letter)
            };
            let bare = frequency::bare(scaled);
            let full = frequency::bare(scaled.push(h).push(z));
            &&& frequency::scale_of(bare) == scale
            &&& frequency::without_scale(bare) == number
            &&& frequency::scale_of(full) == scale
            &&& frequency::without_scale(full) == number
        }),
{
    let scaled = if scale is Hertz {
        number
    } else {
        number.push(letter)
    };
    let full = scaled.push(h).push(z);
    let small = if scale is Hertz {
        number
    } else {
        number.push(
            match scale {
                Scale::Kilohertz => 'k',
                Scale::Megahertz => 'm',
                _ => 'g',
            },
        )
    };
    let last = number.len() - 1;
    assert(('0' <= number[last] && number[last] <= '9') || number[last] == '.');
    assert(('0' <= number[0] && number[0] <= '9') || number[0] == '.');
    assert forall|k: int| 0 <= k < number.len() implies frequency::lower(#[trigger] number[k])
        == number[k] by {}
    lemma_stripped(scaled);
    lemma_stripped(full);
    assert(frequency::lowered(scaled) =~= small);
    assert(frequency::lowered(full) =~= small.push('h').push('z'));
    lemma_stripped(small);
    let unit = small.push('h').push('z');
    assert(unit.take(unit.len() - 2) =~= small);
    assert(frequency::bare(scaled) == small) by {
        if small.len() >= 2 {
            assert(small[small.len() - 1] != 'z');
        }
    }
    assert(frequency::bare(full) == small);
    if !(scale is Hertz) {
        assert(small.drop_last() =~= number);
    }
}

/// White space is what is not taken for part of a frequency: blanks, tabs and
/// line ends among it, and no digit, letter or point.
pub proof fn white_space_is_not_typed(c: char)
    ensures
        c == ' ' || c == '\t' || c == '\n' || c == '\r' ==> frequency::is_space(c),
        ('0' <= c && c <= '9') || ('a' <= c && c <= 'z') || ('A' <= c && c <= 'Z') || c == '.' || c
            == '-' ==> !frequency::is_space(c),
{
}

/// A burst counts as a frame where it decoded without a problem, and then as
/// what it decoded to; any other burst counts as none.
pub proof fn clean_bursts_count(reports: Seq<Report>, last: Report)
    ensures
        report::clean_frames(Seq::empty()).len() == 0,
        last.clean() ==> (last.frame() matches Some(frame) && last.keys() matches Some(keys)
            && report::clean_frames(reports.push(last)) == report::clean_frames(reports).push(
            (frame, keys),
        )),
        !last.clean() ==> report::clean_frames(reports.push(last)) == report::clean_frames(reports),
        last.clean() <==> last.problems.len() == 0 && last.blocks.len() == 7 && forall|k: int|
            0 <= k < 7 ==> #[trigger] last.blocks[k] is Some,
{
    assert(reports.push(last).drop_last() =~= reports);
    if last.clean() {
        assert(last.blocks[0] is Some && last.blocks[1] is Some && last.blocks[2] is Some
            && last.blocks[3] is Some && last.blocks[4] is Some && last.blocks[5] is Some
            && last.blocks[6] is Some);
    }
}

/// Every burst of a file is reported on, in order, as it decodes.
pub proof fn every_burst_is_reported_on(bursts: Seq<Seq<i64>>)
    ensures
        report::reports(bursts).len() == bursts.len(),
        forall|k: int|
            0 <= k < bursts.len() ==> report::reports(bursts)[k] == proflame::decoded(
                #[trigger] bursts[k],
            ),
{
}

/// Some frames of one remote: they are told by their blocks and their keys.
pub proof fn frames_are_told_by_blocks_and_keys(clean: Seq<(Frame, Keys)>, k: int)
    requires
        0 <= k < clean.len(),
    ensures
        report::values_of(clean)[k] == clean[k].0.on_air(clean[k].1),
        report::first_keys(clean)[k] == clean[k].1.k1,
        report::second_keys(clean)[k] == clean[k].1.k2,
        report::values_of(clean).len() == clean.len(),
        report::first_keys(clean).len() == clean.len(),
        report::second_keys(clean).len() == clean.len(),
{
}

/// How often a value occurs: once more for every one of it, and not at all
/// where it does not.
pub proof fn occurrences_are_counted(values: Seq<Seq<u8>>, value: Seq<u8>, other: Seq<u8>)
    ensures
        report::count_of(Seq::<Seq<u8>>::empty(), other) == 0,
        report::count_of(values.push(value), other) == report::count_of(values, other) + if value
            == other {
            1int
        } else {
            0
        },
{
    assert(values.push(value).drop_last() =~= values);
}

/// The most frequent of a file's frames stands first, and of two that are
/// equally frequent the one that is lower at the first block they differ in.
pub proof fn the_most_frequent_stands_first(a: Seq<u8>, b: Seq<u8>, first: nat, second: nat, at: int)
    requires
        a.len() == b.len(),
        0 <= at < a.len(),
        a[at] < b[at],
        forall|k: int| 0 <= k < at ==> #[trigger] a[k] == b[k],
    ensures
        report::ranks_before((a, first), (b, second)) <==> first >= second,
        report::ranks_before((b, second), (a, first)) <==> second > first,
    decreases at,
{
    lemma_precedes(a, b, at);
}

proof fn lemma_precedes(a: Seq<u8>, b: Seq<u8>, at: int)
    requires
        a.len() == b.len(),
        0 <= at < a.len(),
        a[at] < b[at],
        forall|k: int| 0 <= k < at ==> #[trigger] a[k] == b[k],
    ensures
        report::precedes(a, b),
        !report::precedes(b, a),
    decreases at,
{
    if at > 0 {
        let x = a.drop_first();
        let y = b.drop_first();
        assert(a[0] == b[0]);
        assert forall|k: int| 0 <= k < at - 1 implies #[trigger] x[k] == y[k] by {
            assert(a[k + 1] == b[k + 1]);
        }
        lemma_precedes(x, y, at - 1);
    }
}

/// A timings file is sent as its frame and repeats, at a hundred of 127, with
/// zeros up to a whole number of 512 bytes.
pub proof fn files_are_sent_whole(
    timings: Seq<i64>,
    repeat: u32,
    gap_us: u32,
    sample_rate: u32,
    prepared: files::Prepared,
)
    requires
        files::prepares(timings, repeat, gap_us, sample_rate, Ok(prepared)),
    ensures
        ({
            let sent = synthesis::transmission(timings, repeat, gap_us, sample_rate, 100);
            let samples = prepared.samples@;
            &&& timings.len() > 0
            &&& samples.len() % 512 == 0
            &&& sent.len() <= samples.len() < sent.len() + 512
            &&& samples.take(sent.len() as int) == sent
            &&& forall|k: int| sent.len() <= k < samples.len() ==> samples[k] == 0
            &&& prepared.edges == timings.len()
        }),
{
    radio::padding_aligns(synthesis::transmission(timings, repeat, gap_us, sample_rate, 100));
}

/// A list of bursts is taken as it is; one burst is taken for a list of one; and
/// what is neither is refused in the words that it was refused in as a burst.
pub proof fn files_hold_bursts(
    found: Seq<Seq<i64>>,
    timings: Seq<i64>,
    one: Result<Seq<i64>, Seq<char>>,
    first: Seq<char>,
    second: Seq<char>,
)
    ensures
        files::listed(Ok(found), one) == Ok::<Seq<Seq<i64>>, Seq<char>>(found),
        files::listed(Err(first), Ok(timings)) == Ok::<Seq<Seq<i64>>, Seq<char>>(seq![timings]),
        files::listed(Err(first), Err(second)) == Err::<Seq<Seq<i64>>, Seq<char>>(second),
{
}

/// A list in JSON: its items between brackets, with a comma between each two.
pub proof fn lists_are_written_with_commas(items: Seq<Seq<char>>, item: Seq<char>)
    ensures
        files::json_list(Seq::empty()) == seq!['[', ']'],
        files::json_list(seq![item]) == seq!['['] + item + seq![']'],
        items.len() > 0 ==> files::json_list(items.push(item)) == files::json_list(
            items,
        ).drop_last() + seq![','] + item + seq![']'],
{
    assert(files::json_list(Seq::<Seq<char>>::empty()) =~= seq!['[', ']']);
    assert(files::json_list(seq![item]) =~= seq!['['] + item + seq![']']);
    if items.len() > 0 {
        assert(items.push(item).drop_last() =~= items);
        assert(files::json_list(items.push(item)) =~= files::json_list(items).drop_last() + seq![','] + item + seq![']']);
    }
}

/// A second remote shows: where two frames of a file disagree in a key, or where
/// there is no frame at all, the file is not consistent; and where they all
/// agree it is.
pub proof fn a_second_remote_shows(bursts: Seq<Seq<i64>>, findings: report::Findings)
    requires
        findings.follow_from(bursts),
    ensures
        ({
            let clean = report::clean_frames(report::reports(bursts));
            &&& findings.clean@ == clean
            &&& findings.consistent <==> clean.len() > 0 && forall|i: int, j: int|
                0 <= i < clean.len() && 0 <= j < clean.len() ==> (#[trigger] clean[i]).1 == (
                #[trigger] clean[j]).1
        }),
{
    let clean = report::clean_frames(report::reports(bursts));
    let k1 = report::first_keys(clean);
    let k2 = report::second_keys(clean);
    if findings.consistent {
        assert forall|i: int, j: int| 0 <= i < clean.len() && 0 <= j < clean.len() implies (
        #[trigger] clean[i]).1 == (#[trigger] clean[j]).1 by {
            assert(k1[i] == k1[j]);
            assert(k2[i] == k2[j]);
        }
    }
    if clean.len() > 0 && forall|i: int, j: int|
        0 <= i < clean.len() && 0 <= j < clean.len() ==> (#[trigger] clean[i]).1 == (
        #[trigger] clean[j]).1 {
        assert forall|i: int, j: int| 0 <= i < k1.len() && 0 <= j < k1.len() implies #[trigger] k1[i]
            == #[trigger] k1[j] by {
            assert(clean[i].1 == clean[j].1);
        }
        assert forall|i: int, j: int| 0 <= i < k2.len() && 0 <= j < k2.len() implies #[trigger] k2[i]
            == #[trigger] k2[j] by {
            assert(clean[i].1 == clean[j].1);
        }
    }
}

/// A burst in JSON is its timings in decimal, in order, with a minus sign where
/// it is a space; and bursts are such lists, in order.
pub proof fn bursts_are_written_in_order(
    timings: Seq<i64>,
    timing: i64,
    bursts: Seq<Seq<i64>>,
)
    ensures
        files::burst_json(Seq::empty()) == seq!['[', ']'],
        files::burst_json(seq![timing]) == seq!['['] + text::signed_decimal(timing as int) + seq![
            ']',
        ],
        timings.len() > 0 ==> files::burst_json(timings.push(timing)) == files::burst_json(
            timings,
        ).drop_last() + seq![','] + text::signed_decimal(timing as int) + seq![']'],
        files::bursts_json(Seq::empty()) == seq!['[', ']'],
        files::bursts_json(seq![timings]) == seq!['['] + files::burst_json(timings) + seq![']'],
        bursts.len() > 0 ==> files::bursts_json(bursts.push(timings)) == files::bursts_json(
            bursts,
        ).drop_last() + seq![','] + files::burst_json(timings) + seq![']'],
{
    let written = |t: i64| text::signed_decimal(t as int);
    let items = timings.map_values(written);
    let item = text::signed_decimal(timing as int);
    lists_are_written_with_commas(items, item);
    assert(Seq::<i64>::empty().map_values(written) =~= Seq::<Seq<char>>::empty());
    assert(seq![timing].map_values(written) =~= seq![item]);
    assert(timings.push(timing).map_values(written) =~= items.push(item));
    let listed = |t: Seq<i64>| files::burst_json(t);
    let lists = bursts.map_values(listed);
    let list = files::burst_json(timings);
    lists_are_written_with_commas(lists, list);
    assert(Seq::<Seq<i64>>::empty().map_values(listed) =~= Seq::<Seq<char>>::empty());
    assert(seq![timings].map_values(listed) =~= seq![list]);
    assert(bursts.push(timings).map_values(listed) =~= lists.push(list));
}

/// What comes of decoding a file: a report of every burst, in order, unless one
/// has more symbols than can be held; and where the file holds no bursts, the
/// words that it was refused in.
pub proof fn files_are_decoded_whole(
    found: Seq<Seq<i64>>,
    words: Seq<char>,
    outcome: Result<report::Findings, files::Undecodable>,
)
    ensures
        files::decodes_read(Ok(found), outcome) ==> match outcome {
            Ok(findings) => findings.decoded@.len() == found.len() && forall|k: int|
                0 <= k < found.len() ==> (#[trigger] findings.decoded@[k])@ == proflame::decoded(
                    found[k],
                ),
            Err(files::Undecodable::NotTimings { .. }) => false,
            Err(files::Undecodable::TooLong) => exists|k: int|
                0 <= k < found.len() && proflame::quantised(#[trigger] found[k]).len() + 26
                    > isize::MAX,
        },
        files::decodes_read(Err(words), outcome) ==> (outcome matches Err(
            files::Undecodable::NotTimings { words: told },
        ) && told@ == words),
{
    if files::decodes_read(Ok(found), outcome) {
        match outcome {
            Ok(findings) => {
                let all = report::contents(findings.decoded@);
                assert(all == report::reports(found));
                assert(all.len() == findings.decoded@.len());
                assert forall|k: int| 0 <= k < found.len() implies (
                #[trigger] findings.decoded@[k])@ == proflame::decoded(found[k]) by {
                    assert(all[k] == findings.decoded@[k]@);
                    assert(report::reports(found)[k] == proflame::decoded(found[k]));
                }
            },
            _ => {},
        }
    }
}

/// What comes of sending a file: the samples of its timings, unless there are
/// none, or more than can be held; and where the file holds no timings, the
/// words that it was refused in.
pub proof fn files_are_prepared_or_refused(
    timings: Seq<i64>,
    words: Seq<char>,
    repeat: u32,
    gap_us: u32,
    sample_rate: u32,
    outcome: Result<files::Prepared, files::Unsendable>,
)
    ensures
        files::prepares_read(Ok(timings), repeat, gap_us, sample_rate, outcome) ==> match outcome {
            Ok(prepared) => {
                &&& timings.len() > 0
                &&& prepared.samples@ == radio::aligned(
                    synthesis::transmission(timings, repeat, gap_us, sample_rate, 100),
                )
                &&& prepared.edges == timings.len()
                &&& prepared.duration_us is None <==> analysis::air_time(timings)
                    > 0x7FFF_FFFF_FFFF_FFFF
                &&& prepared.duration_us matches Some(us) ==> us == analysis::air_time(timings)
            },
            Err(files::Unsendable::NotTimings { .. }) => false,
            Err(files::Unsendable::NoTimings) => timings.len() == 0,
            Err(files::Unsendable::TooLong) => timings.len() > 0 && synthesis::transmission(
                timings,
                repeat,
                gap_us,
                sample_rate,
                100,
            ).len() + 512 > isize::MAX,
        },
        files::prepares_read(Err(words), repeat, gap_us, sample_rate, outcome) ==> (
        outcome matches Err(files::Unsendable::NotTimings { words: told }) && told@ == words),
{
    radio::padding_aligns(synthesis::transmission(timings, repeat, gap_us, sample_rate, 100));
}

/// The verdict over some files is good where none of them is bad.
pub proof fn one_bad_file_is_enough(findings: Seq<report::Findings>, last: report::Findings)
    ensures
        files::all_consistent(Seq::empty()),
        files::all_consistent(findings.push(last)) <==> files::all_consistent(findings)
            && last.consistent,
{
    let all = findings.push(last);
    if files::all_consistent(all) {
        assert(all[findings.len() as int] == last);
        assert forall|k: int| 0 <= k < findings.len() implies (
        #[trigger] findings[k]).consistent by {
            assert(all[k] == findings[k]);
        }
    }
    if files::all_consistent(findings) && last.consistent {
        assert forall|k: int| 0 <= k < all.len() implies (#[trigger] all[k]).consistent by {
            if k < findings.len() {
                assert(all[k] == findings[k]);
            }
        }
    }
}

/// A file's frames are ranked: each value that a clean frame had stands there
/// once, with how often it came, and none that came less often before one that
/// came more often; and its keys are listed, each once, from the lowest up.
pub proof fn files_are_summed_up(bursts: Seq<Seq<i64>>, findings: report::Findings)
    requires
        findings.follow_from(bursts),
    ensures
        ({
            let clean = findings.clean@;
            let ranked = findings.distinct@;
            &&& forall|k: int|
                #![trigger clean[k]]
                0 <= k < clean.len() ==> exists|i: int|
                    0 <= i < ranked.len() && (#[trigger] ranked[i]).blocks@ == clean[k].0.on_air(
                        clean[k].1,
                    )
            &&& forall|i: int|
                0 <= i < ranked.len() ==> (#[trigger] ranked[i]).count == report::count_of(
                    report::values_of(clean),
                    ranked[i].blocks@,
                ) && ranked[i].count > 0
            &&& forall|i: int, j: int|
                0 <= i < j < ranked.len() ==> (#[trigger] ranked[i]).count >= (
                #[trigger] ranked[j]).count
            &&& forall|i: int, j: int|
                0 <= i < j < findings.k1@.len() ==> #[trigger] findings.k1@[i]
                    < #[trigger] findings.k1@[j]
            &&& forall|i: int, j: int|
                0 <= i < j < findings.k2@.len() ==> #[trigger] findings.k2@[i]
                    < #[trigger] findings.k2@[j]
            &&& forall|k: int|
                #![trigger clean[k]]
                0 <= k < clean.len() ==> findings.k1@.contains(clean[k].1.k1)
                    && findings.k2@.contains(clean[k].1.k2)
            &&& forall|i: int|
                0 <= i < findings.k1@.len() ==> exists|k: int|
                    0 <= k < clean.len() && (#[trigger] clean[k]).1.k1 == #[trigger] findings.k1@[i]
            &&& forall|i: int|
                0 <= i < findings.k2@.len() ==> exists|k: int|
                    0 <= k < clean.len() && (#[trigger] clean[k]).1.k2 == #[trigger] findings.k2@[i]
        }),
{
    let clean = findings.clean@;
    let ranked = findings.distinct@;
    let ranking = report::ranking_of(ranked);
    let values = report::values_of(clean);
    assert forall|k: int| #![trigger clean[k]] 0 <= k < clean.len() implies exists|i: int|
        0 <= i < ranked.len() && (#[trigger] ranked[i]).blocks@ == clean[k].0.on_air(
            clean[k].1,
        ) by {
        assert(values[k] == clean[k].0.on_air(clean[k].1));
        let i = choose|i: int| 0 <= i < ranking.len() && (#[trigger] ranking[i]).0 == values[k];
        assert(ranked[i].blocks@ == ranking[i].0);
    }
    assert forall|i: int| 0 <= i < ranked.len() implies (#[trigger] ranked[i]).count
        == report::count_of(values, ranked[i].blocks@) && ranked[i].count > 0 by {
        assert(ranking[i] == (ranked[i].blocks@, ranked[i].count as nat));
    }
    assert forall|i: int, j: int| 0 <= i < j < ranked.len() implies (#[trigger] ranked[i]).count >= (
    #[trigger] ranked[j]).count by {
        assert(report::ranks_before(ranking[i], ranking[j]));
    }
    assert forall|k: int| #![trigger clean[k]] 0 <= k < clean.len() implies findings.k1@.contains(
        clean[k].1.k1,
    ) && findings.k2@.contains(clean[k].1.k2) by {
        assert(report::first_keys(clean)[k] == clean[k].1.k1);
        assert(report::second_keys(clean)[k] == clean[k].1.k2);
        assert(report::first_keys(clean).contains(clean[k].1.k1));
        assert(report::second_keys(clean).contains(clean[k].1.k2));
    }
    assert forall|i: int| 0 <= i < findings.k1@.len() implies exists|k: int|
        0 <= k < clean.len() && (#[trigger] clean[k]).1.k1 == #[trigger] findings.k1@[i] by {
        let keys = report::first_keys(clean);
        assert(findings.k1@.contains(findings.k1@[i]));
        let k = choose|k: int| 0 <= k < keys.len() && keys[k] == findings.k1@[i];
        assert(clean[k].1.k1 == keys[k]);
    }
    assert forall|i: int| 0 <= i < findings.k2@.len() implies exists|k: int|
        0 <= k < clean.len() && (#[trigger] clean[k]).1.k2 == #[trigger] findings.k2@[i] by {
        let keys = report::second_keys(clean);
        assert(findings.k2@.contains(findings.k2@[i]));
        let k = choose|k: int| 0 <= k < keys.len() && keys[k] == findings.k2@[i];
        assert(clean[k].1.k2 == keys[k]);
    }
}

/// The bursts of a file can be held side by side where none lasts longer than
/// can be told, and no two are further apart than that.
pub proof fn what_can_be_held_side_by_side(bursts: Seq<Vec<i64>>)
    ensures
        bench::countable(bursts) <==> analysis::deviations_fit(bursts) && forall|k: int|
            0 <= k < bursts.len() ==> analysis::air_time((#[trigger] bursts[k])@) <= i64::MAX,
{
}

/// Lists stand for their contents, item by item.
pub proof fn lists_stand_for_their_contents(found: Seq<Vec<i64>>, heard: Seq<Burst>)
    ensures
        bursts::contents(found).len() == found.len(),
        forall|k: int|
            0 <= k < found.len() ==> bursts::contents(found)[k] == (#[trigger] found[k])@,
        detector::heard(heard).len() == heard.len(),
        forall|k: int|
            0 <= k < heard.len() ==> detector::heard(heard)[k].timings == (
            #[trigger] heard[k]).timings@ && detector::heard(heard)[k].peak == heard[k].peak,
{
}

} // verus!
