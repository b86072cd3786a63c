//! What the decoded bursts of one file say together.

use vstd::prelude::*;

use crate::ook::bursts;
use crate::proflame;
use crate::proflame::laws;
use crate::proflame::{decode, Decoded, Frame, Keys};

verus! {

/// How many of some values are this one.
pub open spec fn count_of<A>(values: Seq<A>, value: A) -> nat
    decreases values.len(),
{
    if values.len() == 0 {
        0
    } else {
        count_of(values.drop_last(), value) + if values.last() == value {
            1nat
        } else {
            0
        }
    }
}

/// Whether a list of bytes comes before another, byte by byte.
pub open spec fn precedes(a: Seq<u8>, b: Seq<u8>) -> bool
    decreases a.len(),
{
    if b.len() == 0 {
        false
    } else if a.len() == 0 {
        true
    } else if a[0] != b[0] {
        a[0] < b[0]
    } else {
        precedes(a.drop_first(), b.drop_first())
    }
}

/// Whether a frame value ranks before another: the more frequent one first,
/// and among equally frequent ones the lower one.
pub open spec fn ranks_before(a: (Seq<u8>, nat), b: (Seq<u8>, nat)) -> bool {
    a.1 > b.1 || (a.1 == b.1 && precedes(a.0, b.0))
}

/// Whether a list holds every value once, with its count, ranked.
pub open spec fn is_ranking(values: Seq<Seq<u8>>, ranking: Seq<(Seq<u8>, nat)>) -> bool {
    &&& forall|i: int, j: int|
        0 <= i < j < ranking.len() ==> ranks_before(#[trigger] ranking[i], #[trigger] ranking[j])
    &&& forall|i: int|
        #![trigger ranking[i]]
        0 <= i < ranking.len() ==> ranking[i].1 == count_of(values, ranking[i].0) && ranking[i].1
            > 0
    &&& forall|k: int|
        #![trigger values[k]]
        0 <= k < values.len() ==> exists|i: int|
            0 <= i < ranking.len() && (#[trigger] ranking[i]).0 == values[k]
}

/// Whether a list holds every value of another once, in ascending order.
pub open spec fn is_set_of(values: Seq<u8>, set: Seq<u8>) -> bool {
    &&& forall|i: int, j: int| 0 <= i < j < set.len() ==> #[trigger] set[i] < #[trigger] set[j]
    &&& forall|value: u8| #[trigger] set.contains(value) <==> values.contains(value)
}

/// The bursts' reports.
pub open spec fn reports(bursts: Seq<Seq<i64>>) -> Seq<proflame::Report> {
    bursts.map_values(|burst: Seq<i64>| proflame::decoded(burst))
}

/// The frames that decoded cleanly, with the keys derived from them.
pub open spec fn clean_frames(reports: Seq<proflame::Report>) -> Seq<(Frame, Keys)>
    decreases reports.len(),
{
    if reports.len() == 0 {
        Seq::empty()
    } else {
        let before = clean_frames(reports.drop_last());
        match (reports.last().frame(), reports.last().keys()) {
            (Some(frame), Some(keys)) => before.push((frame, keys)),
            _ => before,
        }
    }
}

/// The block values of clean frames.
pub open spec fn values_of(clean: Seq<(Frame, Keys)>) -> Seq<Seq<u8>> {
    clean.map_values(|found: (Frame, Keys)| found.0.on_air(found.1))
}

/// The first halves' constants.
pub open spec fn first_keys(clean: Seq<(Frame, Keys)>) -> Seq<u8> {
    clean.map_values(|found: (Frame, Keys)| found.1.k1)
}

/// The second halves' constants.
pub open spec fn second_keys(clean: Seq<(Frame, Keys)>) -> Seq<u8> {
    clean.map_values(|found: (Frame, Keys)| found.1.k2)
}

/// Whether every one of some values is the same, and there is one.
pub open spec fn all_same(values: Seq<u8>) -> bool {
    &&& values.len() > 0
    &&& forall|i: int, j: int|
        0 <= i < values.len() && 0 <= j < values.len() ==> #[trigger] values[i]
            == #[trigger] values[j]
}

/// A frame's block values, and how often they occurred.
#[derive(Debug, Clone, Copy)]
pub struct Ranked {
    pub blocks: [u8; 7],
    pub count: usize,
}

/// What the decoded bursts of one file say together.
#[derive(Debug, Clone)]
pub struct Findings {
    /// Every burst's own report, in order.
    pub decoded: Vec<Decoded>,
    /// The frames that decoded cleanly, with the keys derived from them.
    pub clean: Vec<(Frame, Keys)>,
    /// The distinct frame values, the most frequent first.
    pub distinct: Vec<Ranked>,
    /// The constants of the first half, ascending.
    pub k1: Vec<u8>,
    /// The constants of the second half, ascending.
    pub k2: Vec<u8>,
    /// At least one frame decoded cleanly, and the constants agree.
    pub consistent: bool,
}

/// A ranking, as values.
pub open spec fn ranking_of(distinct: Seq<Ranked>) -> Seq<(Seq<u8>, nat)> {
    distinct.map_values(|ranked: Ranked| (ranked.blocks@, ranked.count as nat))
}

/// The contents of a list of reports.
pub open spec fn contents(decoded: Seq<Decoded>) -> Seq<proflame::Report> {
    decoded.map_values(|report: Decoded| report@)
}

impl Findings {
    /// Whether this is what some bursts say.
    pub open spec fn follow_from(self, bursts: Seq<Seq<i64>>) -> bool {
        let clean = clean_frames(reports(bursts));
        &&& contents(self.decoded@) == reports(bursts)
        &&& self.clean@ == clean
        &&& is_ranking(values_of(clean), ranking_of(self.distinct@))
        &&& is_set_of(first_keys(clean), self.k1@)
        &&& is_set_of(second_keys(clean), self.k2@)
        &&& self.consistent == (all_same(first_keys(clean)) && all_same(second_keys(clean)))
    }
}

proof fn lemma_precedes_total(a: Seq<u8>, b: Seq<u8>)
    requires
        a.len() == b.len(),
    ensures
        a != b ==> precedes(a, b) || precedes(b, a),
        !(precedes(a, b) && precedes(b, a)),
        precedes(a, b) ==> a != b,
    decreases a.len(),
{
    if a.len() == 0 {
        assert(a =~= b);
    } else {
        lemma_precedes_total(a.drop_first(), b.drop_first());
        if a[0] == b[0] {
            assert(a =~= seq![a[0]] + a.drop_first());
            assert(b =~= seq![b[0]] + b.drop_first());
        }
    }
}

proof fn lemma_precedes_transitive(a: Seq<u8>, b: Seq<u8>, c: Seq<u8>)
    requires
        precedes(a, b),
        precedes(b, c),
    ensures
        precedes(a, c),
    decreases a.len(),
{
    if a.len() > 0 && a[0] == b[0] && b[0] == c[0] {
        lemma_precedes_transitive(a.drop_first(), b.drop_first(), c.drop_first());
    }
}

fn comes_first(a: &[u8; 7], b: &[u8; 7]) -> (result: bool)
    ensures
        result == precedes(a@, b@),
{
    let ghost x = a@;
    let ghost y = b@;
    assert(x.subrange(0, 7) =~= x && y.subrange(0, 7) =~= y);
    for k in 0..7
        invariant
            a@ == x,
            b@ == y,
            x.len() == 7,
            y.len() == 7,
            precedes(x, y) == precedes(x.subrange(k as int, 7), y.subrange(k as int, 7)),
    {
        assert(x.subrange(k as int, 7).drop_first() =~= x.subrange(k + 1, 7));
        assert(y.subrange(k as int, 7).drop_first() =~= y.subrange(k + 1, 7));
        if a[k] != b[k] {
            return a[k] < b[k];
        }
    }
    false
}

proof fn lemma_count_push<A>(values: Seq<A>, value: A, other: A)
    ensures
        count_of(values.push(value), other) == count_of(values, other) + if value == other {
            1nat
        } else {
            0
        },
{
    assert(values.push(value).drop_last() =~= values);
}

proof fn lemma_count_bound<A>(values: Seq<A>, value: A)
    ensures
        count_of(values, value) <= values.len(),
        !values.contains(value) ==> count_of(values, value) == 0,
    decreases values.len(),
{
    if values.len() > 0 {
        lemma_count_bound(values.drop_last(), value);
        assert(values.contains(values.last()));
        assert forall|k: int| 0 <= k < values.len() - 1 implies values[k]
            == #[trigger] values.drop_last()[k] by {}
        if values.drop_last().contains(value) {
            let k = choose|k: int|
                0 <= k < values.len() - 1 && values.drop_last()[k] == value;
            assert(values[k] == value);
        }
    }
}

impl Ranked {
    /// The entry, as values.
    pub open spec fn ranked(self) -> (Seq<u8>, nat) {
        (self.blocks@, self.count as nat)
    }
}

fn ranks_first(a: &Ranked, b: &Ranked) -> (result: bool)
    ensures
        result == ranks_before(a.ranked(), b.ranked()),
{
    a.count > b.count || (a.count == b.count && comes_first(&a.blocks, &b.blocks))
}

fn same(a: &[u8; 7], b: &[u8; 7]) -> (result: bool)
    ensures
        result == (a@ == b@),
{
    proof {
        lemma_precedes_total(a@, b@);
        lemma_precedes_total(b@, a@);
    }
    !comes_first(a, b) && !comes_first(b, a)
}

/// Whether a list is ranked.
pub open spec fn in_order(ranking: Seq<(Seq<u8>, nat)>) -> bool {
    forall|i: int, j: int|
        0 <= i < j < ranking.len() ==> ranks_before(#[trigger] ranking[i], #[trigger] ranking[j])
}

/// Put an entry with new block values where it belongs.
fn insert_ranked(list: &mut Vec<Ranked>, entry: Ranked) -> (at: usize)
    requires
        in_order(ranking_of(old(list)@)),
        forall|i: int|
            0 <= i < old(list)@.len() ==> (#[trigger] old(list)@[i]).blocks@ != entry.blocks@,
    ensures
        at <= old(list)@.len(),
        final(list)@ == old(list)@.insert(at as int, entry),
        in_order(ranking_of(final(list)@)),
{
    let ghost before = list@;
    let mut at: usize = 0;
    while at < list.len() && !ranks_first(&entry, &list[at])
        invariant
            list@ == before,
            at <= before.len(),
            forall|i: int|
                0 <= i < before.len() ==> (#[trigger] before[i]).blocks@ != entry.blocks@,
            forall|i: int|
                0 <= i < at ==> ranks_before((#[trigger] before[i]).ranked(), entry.ranked()),
        decreases before.len() - at,
    {
        proof {
            lemma_precedes_total(entry.blocks@, before[at as int].blocks@);
            lemma_precedes_total(before[at as int].blocks@, entry.blocks@);
        }
        at = at + 1;
    }
    list.insert(at, entry);
    proof {
        let was = ranking_of(before);
        let now = ranking_of(list@);
        assert forall|i: int, j: int| 0 <= i < j < now.len() implies ranks_before(
            #[trigger] now[i],
            #[trigger] now[j],
        ) by {
            if j == at {
                assert(now[i] == before[i].ranked());
            } else if i == at {
                assert(now[j] == was[j - 1]);
                assert(was[at as int] == before[at as int].ranked());
                if j - 1 > at {
                    assert(ranks_before(was[at as int], was[j - 1]));
                    if entry.count == was[at as int].1 && was[at as int].1 == was[j - 1].1 {
                        lemma_precedes_transitive(
                            entry.blocks@,
                            was[at as int].0,
                            was[j - 1].0,
                        );
                    }
                }
            } else {
                let a = if i < at {
                    i
                } else {
                    i - 1
                };
                let b = if j < at {
                    j
                } else {
                    j - 1
                };
                assert(now[i] == was[a] && now[j] == was[b]);
            }
        }
    }
    at
}

/// Count one more occurrence of some block values.
fn count_blocks(list: &mut Vec<Ranked>, blocks: [u8; 7], Ghost(values): Ghost<Seq<Seq<u8>>>)
    requires
        is_ranking(values, ranking_of(old(list)@)),
        values.len() < usize::MAX,
    ensures
        is_ranking(values.push(blocks@), ranking_of(final(list)@)),
{
    let ghost before = list@;
    let ghost was = ranking_of(before);
    let mut found: usize = 0;
    while found < list.len() && !same(&list[found].blocks, &blocks)
        invariant
            list@ == before,
            found <= before.len(),
            forall|i: int| 0 <= i < found ==> (#[trigger] before[i]).blocks@ != blocks@,
        decreases before.len() - found,
    {
        found = found + 1;
    }
    let mut count: usize = 1;
    if found < list.len() {
        proof {
            assert(was[found as int] == before[found as int].ranked());
            lemma_count_bound(values, blocks@);
        }
        count = list[found].count + 1;
        list.remove(found);
    } else {
        proof {
            lemma_count_bound(values, blocks@);
            if values.contains(blocks@) {
                let k = choose|k: int| 0 <= k < values.len() && values[k] == blocks@;
                let i = choose|i: int| 0 <= i < was.len() && (#[trigger] was[i]).0 == values[k];
                assert(before[i].blocks@ == blocks@);
            }
        }
    }
    assert(count == count_of(values, blocks@) + 1);
    let ghost others = list@;
    let ghost kept = ranking_of(others);
    proof {
        assert forall|i: int| 0 <= i < others.len() implies {
            let k = if found < before.len() && i >= found {
                i + 1
            } else {
                i
            };
            others[i] == before[k] && kept[i] == was[k] && (#[trigger] others[i]).blocks@
                != blocks@
        } by {
            let k = if found < before.len() && i >= found {
                i + 1
            } else {
                i
            };
            assert(others[i] == before[k]);
            assert(kept[i] == was[k]);
            if found < before.len() && k > found {
                assert(ranks_before(was[found as int], was[k]));
                assert(was[k].1 == count_of(values, was[k].0));
                assert(was[found as int].1 == count_of(values, was[found as int].0));
                lemma_precedes_total(was[found as int].0, was[k].0);
            }
        }
        assert forall|i: int, j: int| 0 <= i < j < kept.len() implies ranks_before(
            #[trigger] kept[i],
            #[trigger] kept[j],
        ) by {
            let a = if found < before.len() && i >= found {
                i + 1
            } else {
                i
            };
            let b = if found < before.len() && j >= found {
                j + 1
            } else {
                j
            };
            assert(kept[i] == was[a] && kept[j] == was[b]);
        }
    }
    let at: usize = insert_ranked(list, Ranked { blocks, count });
    proof {
        let now = ranking_of(list@);
        let entry = (blocks@, count as nat);
        assert(now =~= kept.insert(at as int, entry));
        let more = values.push(blocks@);
        assert forall|i: int| #![trigger now[i]] 0 <= i < now.len() implies now[i].1 == count_of(
            more,
            now[i].0,
        ) && now[i].1 > 0 by {
            lemma_count_push(values, blocks@, now[i].0);
            if i != at {
                let a = if i < at {
                    i
                } else {
                    i - 1
                };
                assert(now[i] == kept[a]);
                assert(others[a].blocks@ == kept[a].0);
                let k = if found < before.len() && a >= found {
                    a + 1
                } else {
                    a
                };
                assert(kept[a] == was[k]);
            }
        }
        assert forall|k: int| #![trigger more[k]] 0 <= k < more.len() implies exists|i: int|
            0 <= i < now.len() && (#[trigger] now[i]).0 == more[k] by {
            assert(now[at as int] == entry);
            if more[k] != blocks@ {
                assert(more[k] == values[k]);
                let m = choose|i: int| 0 <= i < was.len() && (#[trigger] was[i]).0 == values[k];
                let a = if found < before.len() && m > found {
                    m - 1
                } else {
                    m
                };
                assert(m != found) by {
                    assert(was[m] == before[m].ranked());
                }
                assert(others[a] == before[m]);
                assert(kept[a] == was[m]);
                let i = if a < at {
                    a
                } else {
                    a + 1
                };
                assert(now[i] == kept[a]);
            }
        }
    }
}

/// Put a value where it belongs, unless it is there.
fn insert_key(set: &mut Vec<u8>, value: u8, Ghost(values): Ghost<Seq<u8>>)
    requires
        is_set_of(values, old(set)@),
    ensures
        is_set_of(values.push(value), final(set)@),
{
    let ghost before = set@;
    let mut at: usize = 0;
    while at < set.len() && set[at] < value
        invariant
            set@ == before,
            at <= before.len(),
            forall|i: int| 0 <= i < at ==> #[trigger] before[i] < value,
        decreases before.len() - at,
    {
        at = at + 1;
    }
    let present: bool = at < set.len() && set[at] == value;
    if !present {
        set.insert(at, value);
    }
    proof {
        let more = values.push(value);
        assert(more[values.len() as int] == value);
        assert forall|other: u8| #[trigger] set@.contains(other) <==> more.contains(other) by {
            if set@.contains(other) && other != value {
                let i = choose|i: int| 0 <= i < set@.len() && set@[i] == other;
                let k = if present || i < at {
                    i
                } else {
                    i - 1
                };
                assert(before[k] == other);
                assert(before.contains(other));
                let m = choose|m: int| 0 <= m < values.len() && values[m] == other;
                assert(more[m] == other);
            }
            if more.contains(other) && other != value {
                let m = choose|m: int| 0 <= m < more.len() && more[m] == other;
                assert(values[m] == other);
                assert(before.contains(other));
                let k = choose|k: int| 0 <= k < before.len() && before[k] == other;
                let i = if present || k < at {
                    k
                } else {
                    k + 1
                };
                assert(set@[i] == other);
            }
            if other == value {
                assert(set@[at as int] == value);
            }
        }
    }
}

proof fn lemma_one_key(values: Seq<u8>, set: Seq<u8>)
    requires
        is_set_of(values, set),
    ensures
        (set.len() == 1) == all_same(values),
{
    if set.len() == 1 {
        assert(set.contains(set[0]));
        assert forall|i: int| 0 <= i < values.len() implies #[trigger] values[i] == set[0] by {
            assert(values.contains(values[i]));
            assert(set.contains(values[i]));
        }
    }
    if all_same(values) {
        assert(values.contains(values[0]));
        assert(set.contains(values[0]));
        assert forall|i: int| 0 <= i < set.len() implies #[trigger] set[i] == values[0] by {
            assert(set.contains(set[i]));
            assert(values.contains(set[i]));
        }
        if set.len() > 1 {
            assert(set[0] < set[1]);
        }
    }
}

impl Findings {
    /// Whether the tallies are those of the clean frames.
    pub open spec fn tallied(self) -> bool {
        &&& is_ranking(values_of(self.clean@), ranking_of(self.distinct@))
        &&& is_set_of(first_keys(self.clean@), self.k1@)
        &&& is_set_of(second_keys(self.clean@), self.k2@)
    }

    fn count(&mut self, frame: Frame, keys: Keys)
        requires
            old(self).tallied(),
            old(self).clean@.len() < usize::MAX,
        ensures
            final(self).tallied(),
            final(self).clean@ == old(self).clean@.push((frame, keys)),
            final(self).decoded == old(self).decoded,
    {
        let ghost clean = self.clean@;
        let blocks: [u8; 7] = frame.blocks(keys);
        count_blocks(&mut self.distinct, blocks, Ghost(values_of(clean)));
        insert_key(&mut self.k1, keys.k1, Ghost(first_keys(clean)));
        insert_key(&mut self.k2, keys.k2, Ghost(second_keys(clean)));
        self.clean.push((frame, keys));
        assert(values_of(self.clean@) =~= values_of(clean).push(blocks@));
        assert(first_keys(self.clean@) =~= first_keys(clean).push(keys.k1));
        assert(second_keys(self.clean@) =~= second_keys(clean).push(keys.k2));
    }

    /// Whether everything but the verdict follows from the reports so far.
    pub open spec fn up_to_date(self) -> bool {
        &&& self.clean@ == clean_frames(contents(self.decoded@))
        &&& self.clean@.len() <= self.decoded@.len()
        &&& self.tallied()
    }

    fn take_in(&mut self, one: Decoded)
        requires
            old(self).up_to_date(),
            old(self).decoded@.len() < usize::MAX,
        ensures
            final(self).up_to_date(),
            contents(final(self).decoded@) == contents(old(self).decoded@).push(one@),
    {
        let ghost told = contents(self.decoded@).push(one@);
        assert(told.drop_last() =~= contents(self.decoded@));
        if let Some(frame) = one.frame() {
            if let Some(keys) = one.keys() {
                self.count(frame, keys);
            }
        }
        assert(self.clean@ == clean_frames(told));
        self.decoded.push(one);
        assert(contents(self.decoded@) =~= told);
    }
}

/// Decode every burst of a file, and tell what they say together: which
/// frames came, how often, and whether one remote sent them.
pub fn report(bursts: &Vec<Vec<i64>>) -> (result: Findings)
    requires
        forall|k: int|
            #![trigger bursts@[k]]
            0 <= k < bursts@.len() ==> proflame::quantised(bursts@[k]@).len()
                + proflame::BLOCK_SYMBOLS <= isize::MAX,
    ensures
        result.follow_from(bursts::contents(bursts@)),
{
    let ghost sent = bursts::contents(bursts@);
    let mut result = Findings {
        decoded: Vec::new(),
        clean: Vec::new(),
        distinct: Vec::new(),
        k1: Vec::new(),
        k2: Vec::new(),
        consistent: false,
    };
    assert(contents(result.decoded@) =~= reports(sent.take(0)));
    for k in 0..bursts.len()
        invariant
            forall|k: int|
                #![trigger bursts@[k]]
                0 <= k < bursts@.len() ==> proflame::quantised(bursts@[k]@).len()
                    + proflame::BLOCK_SYMBOLS <= isize::MAX,
            sent == bursts::contents(bursts@),
            contents(result.decoded@) == reports(sent.take(k as int)),
            result.up_to_date(),
    {
        assert(result.decoded@.len() == contents(result.decoded@).len());
        let one: Decoded = decode(bursts[k].as_slice());
        result.take_in(one);
        assert(reports(sent.take(k + 1)) =~= reports(sent.take(k as int)).push(
            proflame::decoded(bursts@[k as int]@),
        ));
    }
    assert(sent.take(sent.len() as int) =~= sent);
    proof {
        lemma_one_key(first_keys(result.clean@), result.k1@);
        lemma_one_key(second_keys(result.clean@), result.k2@);
    }
    result.consistent = result.k1.len() == 1 && result.k2.len() == 1;
    result
}

/// Frames of one remote are found consistent: where every burst is a frame
/// under the same keys, with every timing off by less than half a symbol, all
/// of them decode cleanly, in order, and yield those keys.
pub proof fn one_remote_is_consistent(frames: Seq<Frame>, keys: Keys, bursts: Seq<Seq<i64>>)
    requires
        frames.len() == bursts.len(),
        forall|k: int|
            #![trigger bursts[k]]
            0 <= k < bursts.len() ==> laws::close(bursts[k], frames[k].encoded(keys)),
    ensures
        clean_frames(reports(bursts)) == frames.map_values(|frame: Frame| (frame, keys)),
        forall|findings: Findings| #[trigger]
            findings.follow_from(bursts) ==> findings.consistent == (bursts.len() > 0),
    decreases bursts.len(),
{
    let found = frames.map_values(|frame: Frame| (frame, keys));
    assert(clean_frames(reports(bursts)) =~= found) by {
        if bursts.len() > 0 {
            one_remote_is_consistent(frames.drop_last(), keys, bursts.drop_last());
            assert(reports(bursts).drop_last() =~= reports(bursts.drop_last()));
            laws::frames_survive(frames.last(), keys, bursts.last());
            assert(frames.drop_last().map_values(|frame: Frame| (frame, keys)).push(
                (frames.last(), keys),
            ) =~= found);
        }
    }
    assert(first_keys(found) =~= Seq::new(found.len(), |k: int| keys.k1));
    assert(second_keys(found) =~= Seq::new(found.len(), |k: int| keys.k2));
}

} // verus!
