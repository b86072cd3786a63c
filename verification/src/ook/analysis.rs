//! Measures over demodulated timings, for protocol analysis.

use std::collections::BTreeMap;
use vstd::prelude::*;

verus! {

/// How long a timing lasts, mark or space.
pub open spec fn span(timing: i64) -> nat {
    if timing < 0 {
        -timing as nat
    } else {
        timing as nat
    }
}

/// How long a list of timings lasts.
pub open spec fn air_time(timings: Seq<i64>) -> nat
    decreases timings.len(),
{
    if timings.len() == 0 {
        0
    } else {
        air_time(timings.drop_last()) + span(timings.last())
    }
}

/// A longer prefix lasts no less.
pub proof fn air_time_grows(timings: Seq<i64>, count: int)
    requires
        0 <= count <= timings.len(),
    ensures
        air_time(timings.take(count)) <= air_time(timings),
    decreases timings.len(),
{
    if count < timings.len() {
        assert(timings.drop_last().take(count) == timings.take(count));
        air_time_grows(timings.drop_last(), count);
    } else {
        assert(timings.take(count) == timings);
    }
}

/// Each timing lasts no longer than the whole list.
pub proof fn air_time_covers(timings: Seq<i64>, index: int)
    requires
        0 <= index < timings.len(),
    ensures
        span(timings[index]) <= air_time(timings),
{
    air_time_grows(timings, index + 1);
    assert(timings.take(index + 1).drop_last() == timings.take(index));
}

/// The lower edge of the bucket that a timing falls into.
pub open spec fn bucket_of(timing: i64, bucket_us: i64) -> int {
    (timing as int) - (timing as int) % (bucket_us as int)
}

/// Whether a timing has a bucket, and the bucket's edge is a number of the
/// timing's own kind.
pub open spec fn has_bucket(timing: i64, bucket_us: i64) -> bool {
    &&& bucket_us != 0
    &&& bucket_of(timing, bucket_us) >= i64::MIN
    &&& !(timing == i64::MIN && bucket_us == -1)
}

/// How many timings fall into a bucket.
pub open spec fn in_bucket(timings: Seq<i64>, bucket_us: i64, bucket: int) -> nat
    decreases timings.len(),
{
    if timings.len() == 0 {
        0
    } else if bucket_of(timings.last(), bucket_us) == bucket {
        in_bucket(timings.drop_last(), bucket_us, bucket) + 1
    } else {
        in_bucket(timings.drop_last(), bucket_us, bucket)
    }
}

/// Every bucket that is not empty, with its count.
pub open spec fn buckets(timings: Seq<i64>, bucket_us: i64) -> Map<i64, usize> {
    Map::new(
        |bucket: i64| in_bucket(timings, bucket_us, bucket as int) > 0,
        |bucket: i64| in_bucket(timings, bucket_us, bucket as int) as usize,
    )
}

proof fn lemma_in_bucket_bound(timings: Seq<i64>, bucket_us: i64, bucket: int)
    ensures
        in_bucket(timings, bucket_us, bucket) <= timings.len(),
    decreases timings.len(),
{
    if timings.len() > 0 {
        lemma_in_bucket_bound(timings.drop_last(), bucket_us, bucket);
    }
}

/// How closely the repeats within a keypress agree.
///
/// Identical repeats mean the frame is static, which is the observable
/// signature of "no rolling code": worth checking rather than assuming.
#[derive(Debug, Clone, Copy)]
pub struct BurstAgreement {
    pub same_edge_count: bool,
    pub max_deviation_us: i64,
}

/// How far two timings are apart.
pub open spec fn deviation(a: i64, b: i64) -> int {
    if a < b {
        b - a
    } else {
        a - b
    }
}

/// Whether a position names a timing that the first burst shares with another
/// of the same edge count.
pub open spec fn comparable(bursts: Seq<Vec<i64>>, other: int, edge: int) -> bool {
    &&& 1 <= other < bursts.len()
    &&& bursts[other]@.len() == bursts[0]@.len()
    &&& 0 <= edge < bursts[0]@.len()
}

/// How far a timing is from the one in its place in the first burst.
pub open spec fn deviation_at(bursts: Seq<Vec<i64>>, other: int, edge: int) -> int {
    deviation(bursts[0]@[edge], bursts[other]@[edge])
}

/// Whether a number is the largest deviation among comparable timings.
pub open spec fn is_largest_deviation(bursts: Seq<Vec<i64>>, largest: int) -> bool {
    &&& 0 <= largest
    &&& forall|other: int, edge: int|
        comparable(bursts, other, edge) ==> #[trigger] deviation_at(bursts, other, edge) <= largest
    &&& largest == 0 || exists|other: int, edge: int|
        comparable(bursts, other, edge) && #[trigger] deviation_at(bursts, other, edge) == largest
}

/// Whether every deviation can be told in the timings' own kind of number.
pub open spec fn deviations_fit(bursts: Seq<Vec<i64>>) -> bool {
    forall|other: int, edge: int|
        comparable(bursts, other, edge) ==> #[trigger] deviation_at(bursts, other, edge)
            <= i64::MAX
}

impl BurstAgreement {
    /// Whether this is how closely some bursts agree.
    pub open spec fn of(self, bursts: Seq<Vec<i64>>) -> bool {
        &&& self.same_edge_count <==> forall|other: int|
            0 <= other < bursts.len() ==> (#[trigger] bursts[other])@.len() == bursts[0]@.len()
        &&& is_largest_deviation(bursts, self.max_deviation_us as int)
    }
}

/// Whether a timing array's duration can be told in its own kind of number.
pub fn is_countable(timings: &[i64]) -> (result: bool)
    ensures
        result == (air_time(timings@) <= i64::MAX),
{
    let mut total: u64 = 0;
    for k in 0..timings.len()
        invariant
            total == air_time(timings@.take(k as int)),
            total <= i64::MAX,
    {
        proof {
            assert(timings@.take(k + 1).drop_last() == timings@.take(k as int));
            air_time_grows(timings@, k + 1);
        }
        let timing: i64 = timings[k];
        let length: u64 = if timing < 0 {
            (-(timing as i128)) as u64
        } else {
            timing as u64
        };
        total = total + length;
        if total > i64::MAX as u64 {
            return false;
        }
    }
    assert(timings@.take(timings@.len() as int) == timings@);
    true
}

/// Whether every deviation among some bursts can be told.
pub fn are_comparable(bursts: &[Vec<i64>]) -> (result: bool)
    ensures
        result == deviations_fit(bursts@),
{
    if bursts.len() == 0 {
        return true;
    }
    let first: &Vec<i64> = &bursts[0];
    for k in 1..bursts.len()
        invariant
            bursts@.len() > 0,
            first == bursts@[0],
            forall|other: int, edge: int|
                comparable(bursts@, other, edge) && other < k ==> #[trigger] deviation_at(
                    bursts@,
                    other,
                    edge,
                ) <= i64::MAX,
    {
        let other: &Vec<i64> = &bursts[k];
        if other.len() == first.len() {
            for e in 0..first.len()
                invariant
                    1 <= k < bursts@.len(),
                    first == bursts@[0],
                    other == bursts@[k as int],
                    other@.len() == first@.len(),
                    forall|j: int|
                        0 <= j < e ==> #[trigger] deviation_at(bursts@, k as int, j) <= i64::MAX,
            {
                let a: i128 = first[e] as i128;
                let b: i128 = other[e] as i128;
                let apart: i128 = if a < b {
                    b - a
                } else {
                    a - b
                };
                assert(deviation_at(bursts@, k as int, e as int) == apart);
                if apart > i64::MAX as i128 {
                    assert(comparable(bursts@, k as int, e as int));
                    return false;
                }
            }
        }
    }
    true
}

/// Whether every timing has a bucket.
pub fn has_buckets(timings: &[i64], bucket_us: i64) -> (result: bool)
    ensures
        result == forall|k: int|
            0 <= k < timings@.len() ==> has_bucket(#[trigger] timings@[k], bucket_us),
{
    for k in 0..timings.len()
        invariant
            forall|j: int| 0 <= j < k ==> has_bucket(#[trigger] timings@[j], bucket_us),
    {
        let timing: i64 = timings[k];
        if bucket_us == 0 || (timing == i64::MIN && bucket_us == -1) {
            assert(!has_bucket(timings@[k as int], bucket_us));
            return false;
        }
        let rest: i64 = timing.checked_rem_euclid(bucket_us).unwrap();
        if (timing as i128) - (rest as i128) < i64::MIN as i128 {
            assert(!has_bucket(timings@[k as int], bucket_us));
            return false;
        }
    }
    true
}

/// Total on-air duration of a timing array.
pub fn duration_us(timings: &[i64]) -> (result: i64)
    requires
        air_time(timings@) <= i64::MAX,
    ensures
        result == air_time(timings@),
{
    let mut total: i64 = 0;
    for k in 0..timings.len()
        invariant
            total == air_time(timings@.take(k as int)),
            air_time(timings@) <= i64::MAX,
    {
        proof {
            air_time_grows(timings@, k + 1);
            assert(timings@.take(k + 1).drop_last() == timings@.take(k as int));
        }
        let timing: i64 = timings[k];
        if timing < 0 {
            total = total + -timing;
        } else {
            total = total + timing;
        }
    }
    assert(timings@.take(timings@.len() as int) == timings@);
    total
}

/// A histogram with one more timing in a bucket.
pub open spec fn counted(hist: Map<i64, usize>, bucket: i64) -> Map<i64, usize> {
    hist.insert(
        bucket,
        if hist.contains_key(bucket) {
            (hist[bucket] + 1) as usize
        } else {
            1
        },
    )
}

/// Count one more timing in a bucket.
fn count_one(hist: &mut BTreeMap<i64, usize>, bucket: i64)
    requires
        old(hist)@.contains_key(bucket) ==> old(hist)@[bucket] < usize::MAX,
    ensures
        final(hist)@ == counted(old(hist)@, bucket),
{
    broadcast use vstd::std_specs::btree::group_btree_axioms;
    broadcast use vstd::laws_cmp::group_laws_cmp;

    let count: usize = match hist.get(&bucket) {
        Some(count) => *count,
        None => 0,
    };
    hist.insert(bucket, count + 1);
}

/// Bucketed pulse-width histogram. Distinct clusters reveal the symbol
/// durations (and therefore the bit clock and encoding).
pub fn width_histogram(timings: &[i64], bucket_us: i64) -> (result: BTreeMap<i64, usize>)
    requires
        forall|k: int| 0 <= k < timings@.len() ==> has_bucket(#[trigger] timings@[k], bucket_us),
    ensures
        result@ == buckets(timings@, bucket_us),
{
    let mut hist: BTreeMap<i64, usize> = BTreeMap::new();
    assert(hist@ =~= buckets(timings@.take(0), bucket_us));
    for k in 0..timings.len()
        invariant
            forall|k: int|
                0 <= k < timings@.len() ==> has_bucket(#[trigger] timings@[k], bucket_us),
            hist@ == buckets(timings@.take(k as int), bucket_us),
    {
        let timing: i64 = timings[k];
        assert(has_bucket(timings@[k as int], bucket_us));
        let bucket: i64 = timing - timing.checked_rem_euclid(bucket_us).unwrap();
        let ghost before = timings@.take(k as int);
        let ghost after = timings@.take(k + 1);
        proof {
            assert(after.drop_last() == before);
            assert(timings@.len() == timings.len());
            lemma_in_bucket_bound(before, bucket_us, bucket as int);
        }
        count_one(&mut hist, bucket);
        assert(hist@ =~= buckets(after, bucket_us));
    }
    assert(timings@.take(timings@.len() as int) == timings@);
    hist
}

/// Hold every burst against the first; `None` when there is none.
pub fn compare_bursts(bursts: &[Vec<i64>]) -> (result: Option<BurstAgreement>)
    requires
        deviations_fit(bursts@),
    ensures
        result is None <==> bursts@.len() == 0,
        result matches Some(agreement) ==> agreement.of(bursts@),
{
    if bursts.len() == 0 {
        return None;
    }
    let first: &Vec<i64> = &bursts[0];
    let mut same_edge_count: bool = true;
    let mut max_deviation_us: i64 = 0;
    for k in 1..bursts.len()
        invariant
            bursts@.len() > 0,
            first == bursts@[0],
            deviations_fit(bursts@),
            same_edge_count <==> forall|other: int|
                0 <= other < k ==> (#[trigger] bursts@[other])@.len() == bursts@[0]@.len(),
            is_largest_deviation(bursts@.take(k as int), max_deviation_us as int),
    {
        let other: &Vec<i64> = &bursts[k];
        let ghost done = bursts@.take(k as int);
        let ghost next = bursts@.take(k + 1);
        if other.len() != first.len() {
            same_edge_count = false;
            proof {
                assert(bursts@[k as int]@.len() != bursts@[0]@.len());
                assert forall|o: int, e: int| comparable(next, o, e) implies #[trigger] deviation_at(
                    next,
                    o,
                    e,
                ) <= max_deviation_us by {
                    assert(comparable(done, o, e) && deviation_at(done, o, e) == deviation_at(
                        next,
                        o,
                        e,
                    ));
                }
                if max_deviation_us != 0 {
                    let (o, e) = choose|o: int, e: int|
                        comparable(done, o, e) && #[trigger] deviation_at(done, o, e)
                            == max_deviation_us;
                    assert(comparable(next, o, e) && deviation_at(next, o, e) == max_deviation_us);
                }
            }
        } else {
            let ghost before = max_deviation_us;
            for e in 0..first.len()
                invariant
                    1 <= k < bursts@.len(),
                    first == bursts@[0],
                    other == bursts@[k as int],
                    other@.len() == first@.len(),
                    deviations_fit(bursts@),
                    before <= max_deviation_us,
                    forall|j: int|
                        0 <= j < e ==> #[trigger] deviation_at(bursts@, k as int, j)
                            <= max_deviation_us,
                    max_deviation_us == before || exists|j: int|
                        0 <= j < e && #[trigger] deviation_at(bursts@, k as int, j)
                            == max_deviation_us,
            {
                assert(comparable(bursts@, k as int, e as int));
                assert(deviation_at(bursts@, k as int, e as int) <= i64::MAX);
                let a: i64 = first[e];
                let b: i64 = other[e];
                let apart: i64 = if a < b {
                    b - a
                } else {
                    a - b
                };
                assert(deviation_at(bursts@, k as int, e as int) == apart);
                if apart > max_deviation_us {
                    max_deviation_us = apart;
                }
            }
            proof {
                assert forall|o: int, e: int| comparable(next, o, e) implies #[trigger] deviation_at(
                    next,
                    o,
                    e,
                ) <= max_deviation_us by {
                    if o < k {
                        assert(comparable(done, o, e) && deviation_at(done, o, e) == deviation_at(
                            next,
                            o,
                            e,
                        ));
                    } else {
                        assert(deviation_at(bursts@, k as int, e) == deviation_at(next, o, e));
                    }
                }
                if max_deviation_us == before {
                    if max_deviation_us != 0 {
                        let (o, e) = choose|o: int, e: int|
                            comparable(done, o, e) && #[trigger] deviation_at(done, o, e)
                                == max_deviation_us;
                        assert(comparable(next, o, e) && deviation_at(next, o, e)
                            == max_deviation_us);
                    }
                } else {
                    let e = choose|j: int|
                        0 <= j < first@.len() && #[trigger] deviation_at(bursts@, k as int, j)
                            == max_deviation_us;
                    assert(comparable(next, k as int, e) && deviation_at(next, k as int, e)
                        == max_deviation_us);
                }
            }
        }
    }
    assert(bursts@.take(bursts@.len() as int) == bursts@);
    Some(BurstAgreement { same_edge_count, max_deviation_us })
}

} // verus!
