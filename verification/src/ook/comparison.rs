//! What the measures over timings measure.

use vstd::prelude::*;

use crate::ook::analysis;
use crate::ook::analysis::BurstAgreement;

verus! {

/// A timing lasts as long as it is far from zero, and timings after each other
/// last as long as they do together.
pub proof fn durations_add_up(first: Seq<i64>, second: Seq<i64>, timing: i64)
    ensures
        analysis::air_time(Seq::empty()) == 0,
        analysis::air_time(seq![timing]) == if timing < 0 {
            -timing
        } else {
            timing as int
        },
        analysis::air_time(first + second) == analysis::air_time(first) + analysis::air_time(second),
    decreases second.len(),
{
    assert(seq![timing].drop_last() =~= Seq::<i64>::empty());
    assert(analysis::air_time(Seq::<i64>::empty()) == 0);
    if second.len() == 0 {
        assert(first + second =~= first);
        assert(second =~= Seq::<i64>::empty());
    } else {
        assert((first + second).drop_last() =~= first + second.drop_last());
        durations_add_up(first, second.drop_last(), timing);
    }
}

/// Two timings are apart by their difference, either way.
pub proof fn deviations_are_distances(a: i64, b: i64)
    ensures
        analysis::deviation(a, b) == analysis::deviation(b, a),
        analysis::deviation(a, b) >= 0,
        analysis::deviation(a, b) == a - b || analysis::deviation(a, b) == b - a,
{
}

/// A timing falls into the bucket that begins at the multiple of the width at
/// or below it.
pub proof fn timings_fall_into_their_buckets(timing: i64, bucket_us: i64)
    requires
        bucket_us > 0,
    ensures
        analysis::bucket_of(timing, bucket_us) <= timing < analysis::bucket_of(timing, bucket_us)
            + bucket_us,
        analysis::bucket_of(timing, bucket_us) % (bucket_us as int) == 0,
{
    let t = timing as int;
    let w = bucket_us as int;
    vstd::arithmetic::div_mod::lemma_fundamental_div_mod(t, w);
    let bucket = analysis::bucket_of(timing, bucket_us);
    assert(bucket == w * (t / w));
    vstd::arithmetic::div_mod::lemma_mod_multiples_basic(t / w, w);
    assert(w * (t / w) == (t / w) * w) by (nonlinear_arith);
}

/// One timing more is one more in its bucket, and in no other.
pub proof fn buckets_count_timings(timings: Seq<i64>, timing: i64, bucket_us: i64, bucket: int)
    ensures
        analysis::in_bucket(Seq::empty(), bucket_us, bucket) == 0,
        analysis::in_bucket(timings.push(timing), bucket_us, bucket) == analysis::in_bucket(
            timings,
            bucket_us,
            bucket,
        ) + if bucket == analysis::bucket_of(timing, bucket_us) {
            1int
        } else {
            0
        },
{
    assert(timings.push(timing).drop_last() =~= timings);
}

/// A histogram has the buckets that timings fell into, and no others, each with
/// how many did.
pub proof fn histograms_hold_what_fell(timings: Seq<i64>, bucket_us: i64, bucket: i64)
    requires
        timings.len() <= usize::MAX,
    ensures
        analysis::buckets(timings, bucket_us).contains_key(bucket) <==> exists|k: int|
            0 <= k < timings.len() && analysis::bucket_of(#[trigger] timings[k], bucket_us)
                == bucket,
        analysis::buckets(timings, bucket_us).contains_key(bucket) ==> analysis::buckets(
            timings,
            bucket_us,
        )[bucket] == analysis::in_bucket(timings, bucket_us, bucket as int),
{
    lemma_in_bucket(timings, bucket_us, bucket as int);
}

proof fn lemma_in_bucket(timings: Seq<i64>, bucket_us: i64, bucket: int)
    ensures
        analysis::in_bucket(timings, bucket_us, bucket) <= timings.len(),
        analysis::in_bucket(timings, bucket_us, bucket) > 0 <==> exists|k: int|
            0 <= k < timings.len() && analysis::bucket_of(#[trigger] timings[k], bucket_us)
                == bucket,
    decreases timings.len(),
{
    if timings.len() > 0 {
        let rest = timings.drop_last();
        let last = timings.len() - 1;
        lemma_in_bucket(rest, bucket_us, bucket);
        if analysis::bucket_of(timings[last], bucket_us) == bucket {
            assert(timings[last] == timings.last());
        }
        if exists|k: int|
            0 <= k < rest.len() && analysis::bucket_of(#[trigger] rest[k], bucket_us) == bucket {
            let k = choose|k: int|
                0 <= k < rest.len() && analysis::bucket_of(#[trigger] rest[k], bucket_us) == bucket;
            assert(timings[k] == rest[k]);
        }
        if exists|k: int|
            0 <= k < timings.len() && analysis::bucket_of(#[trigger] timings[k], bucket_us)
                == bucket {
            let k = choose|k: int|
                0 <= k < timings.len() && analysis::bucket_of(#[trigger] timings[k], bucket_us)
                    == bucket;
            if k < last {
                assert(rest[k] == timings[k]);
            }
        }
    }
}

/// Whether a timing of a burst stands against one of the first, and how far
/// they are apart.
pub open spec fn stands_apart(bursts: Seq<Vec<i64>>, other: int, edge: int, apart: int) -> bool {
    &&& 1 <= other < bursts.len()
    &&& bursts[other]@.len() == bursts[0]@.len()
    &&& 0 <= edge < bursts[0]@.len()
    &&& apart == bursts[0]@[edge] - bursts[other]@[edge] || apart == bursts[other]@[edge]
        - bursts[0]@[edge]
}

/// The agreement of some bursts looks at every one of them: no timing of a burst
/// with as many edges as the first is further from the first's than the largest
/// deviation, and one is as far, unless none is apart at all; and the edge
/// counts are the same only where all of them are.
pub proof fn agreement_looks_at_every_burst(bursts: Seq<Vec<i64>>, agreement: BurstAgreement)
    requires
        agreement.of(bursts),
    ensures
        forall|other: int, edge: int, apart: int| #[trigger]
            stands_apart(bursts, other, edge, apart) ==> -agreement.max_deviation_us <= apart
                <= agreement.max_deviation_us,
        agreement.max_deviation_us != 0 ==> exists|other: int, edge: int| #[trigger]
            stands_apart(bursts, other, edge, agreement.max_deviation_us as int),
        agreement.max_deviation_us >= 0,
        agreement.same_edge_count <==> forall|other: int|
            0 <= other < bursts.len() ==> (#[trigger] bursts[other])@.len() == bursts[0]@.len(),
{
    let largest = agreement.max_deviation_us as int;
    assert forall|other: int, edge: int, apart: int| #[trigger]
        stands_apart(bursts, other, edge, apart) implies -largest <= apart <= largest by {
        assert(analysis::comparable(bursts, other, edge));
        assert(analysis::deviation_at(bursts, other, edge) <= largest);
    }
    if largest != 0 {
        let (other, edge) = choose|other: int, edge: int|
            analysis::comparable(bursts, other, edge) && #[trigger] analysis::deviation_at(
                bursts,
                other,
                edge,
            ) == largest;
        assert(stands_apart(bursts, other, edge, largest));
    }
}

/// Bursts can be held against each other where no two timings that are compared
/// are further apart than a timing can be long.
pub proof fn what_can_be_compared(bursts: Seq<Vec<i64>>)
    ensures
        analysis::deviations_fit(bursts) <==> forall|other: int, edge: int, apart: int| #[trigger]
            stands_apart(bursts, other, edge, apart) ==> apart <= i64::MAX,
{
    if analysis::deviations_fit(bursts) {
        assert forall|other: int, edge: int, apart: int| #[trigger]
            stands_apart(bursts, other, edge, apart) implies apart <= i64::MAX by {
            assert(analysis::comparable(bursts, other, edge));
            assert(analysis::deviation_at(bursts, other, edge) <= i64::MAX);
        }
    }
    if forall|other: int, edge: int, apart: int| #[trigger]
        stands_apart(bursts, other, edge, apart) ==> apart <= i64::MAX {
        assert forall|other: int, edge: int|
            analysis::comparable(bursts, other, edge) implies #[trigger] analysis::deviation_at(
            bursts,
            other,
            edge,
        ) <= i64::MAX by {
            assert(stands_apart(
                bursts,
                other,
                edge,
                analysis::deviation_at(bursts, other, edge),
            ));
        }
    }
}

/// A timing has a bucket unless the bucket begins below what a timing can be.
pub proof fn what_has_a_bucket(timing: i64, bucket_us: i64)
    requires
        bucket_us > 0,
    ensures
        !analysis::has_bucket(timing, bucket_us) <==> exists|below: int|
            below <= i64::MIN - 1 && #[trigger] (below % (bucket_us as int)) == 0 && timing < below
                + bucket_us,
{
    let w = bucket_us as int;
    let t = timing as int;
    timings_fall_into_their_buckets(timing, bucket_us);
    let bucket = analysis::bucket_of(timing, bucket_us);
    if bucket < i64::MIN {
        assert(bucket % w == 0);
    }
    if exists|below: int|
        below <= i64::MIN - 1 && #[trigger] (below % w) == 0 && timing < below + bucket_us {
        let below = choose|below: int|
            below <= i64::MIN - 1 && #[trigger] (below % w) == 0 && timing < below + bucket_us;
        vstd::arithmetic::div_mod::lemma_fundamental_div_mod(below, w);
        vstd::arithmetic::div_mod::lemma_fundamental_div_mod(bucket, w);
        let a = below / w;
        let b = bucket / w;
        assert(bucket <= below) by (nonlinear_arith)
            requires
                below == w * a,
                bucket == w * b,
                bucket <= t,
                t < below + w,
                w > 0,
        {
            assert(w * b < w * a + w);
            assert(b < a + 1);
        }
    }
}

} // verus!
