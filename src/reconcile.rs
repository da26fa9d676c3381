use vstd::prelude::*;

use vstd::math::max;

use crate::absence::{covers, start_of, Absence, ABSENCE_THRESHOLD};
use crate::beat::Beat;
use crate::watermark::Watermark;

verus! {

/// The gap in seconds from beat `prev` to beat `cur`.
pub open spec fn gap(prev: Beat, cur: Beat) -> int {
    cur.timestamp - prev.timestamp
}

/// The absence, not yet stored (its `id` is 0), for the gap from `prev` to `cur`.
pub open spec fn gap_absence(prev: Beat, cur: Beat) -> Absence {
    Absence {
        id: 0,
        timestamp: cur.timestamp,
        duration: gap(prev, cur) as i64,
        begin_beat: prev.id,
        end_beat: cur.id,
    }
}

/// Whether some instant of `ts` falls in the absence `a`.
pub open spec fn hit(a: Absence, ts: Seq<i64>) -> bool {
    exists|i: int| 0 <= i < ts.len() && covers(a, ts[i] as int)
}

/// The absences of `candidates` that no instant of `ts` falls in, in their order.
pub open spec fn untouched(candidates: Seq<Absence>, ts: Seq<i64>) -> Seq<Absence> {
    candidates.filter(|a: Absence| !hit(a, ts))
}

/// The absences of `candidates` that some instant of `ts` falls in, in their order.
pub open spec fn invalidated(candidates: Seq<Absence>, ts: Seq<i64>) -> Seq<Absence> {
    candidates.filter(|a: Absence| hit(a, ts))
}

/// Whether `absences` already holds an absence from beat `prev` to beat `cur`.
pub open spec fn represented(absences: Seq<Absence>, prev: Beat, cur: Beat) -> bool {
    exists|j: int|
        0 <= j < absences.len() && absences[j].begin_beat == prev.id && absences[j].end_beat
            == cur.id
}

/// The number of consecutive pairs in `beats`.
pub open spec fn pair_count(beats: Seq<Beat>) -> int {
    if beats.len() == 0 {
        0
    } else {
        beats.len() - 1
    }
}

/// Whether the pair of `beats` at `k` (`beats[k]`, `beats[k + 1]`) is not yet
/// represented in `kept`, so that the batch looks at its gap.
pub open spec fn fresh_pair(beats: Seq<Beat>, kept: Seq<Absence>, k: int) -> bool {
    !represented(kept, beats[k], beats[k + 1])
}

/// The absences created for the first `n` pairs of `beats`, given the absences
/// `kept`: one for each fresh pair whose gap reaches the threshold, in order.
pub open spec fn created_upto(beats: Seq<Beat>, kept: Seq<Absence>, n: int) -> Seq<Absence>
    decreases n,
{
    if n <= 0 {
        Seq::empty()
    } else {
        let rest = created_upto(beats, kept, n - 1);
        let k = n - 1;
        if fresh_pair(beats, kept, k) && gap(beats[k], beats[k + 1]) >= ABSENCE_THRESHOLD {
            rest.push(gap_absence(beats[k], beats[k + 1]))
        } else {
            rest
        }
    }
}

/// The watermark `w` after observing the gaps of the fresh pairs among the first
/// `n` pairs of `beats`.
pub open spec fn watermark_upto(w: int, beats: Seq<Beat>, kept: Seq<Absence>, n: int) -> int
    decreases n,
{
    if n <= 0 {
        w
    } else {
        let rest = watermark_upto(w, beats, kept, n - 1);
        let k = n - 1;
        if fresh_pair(beats, kept, k) {
            max(rest, gap(beats[k], beats[k + 1]))
        } else {
            rest
        }
    }
}

/// Whether every gap between consecutive `beats` fits in an `i64`.
pub open spec fn gaps_fit(beats: Seq<Beat>) -> bool {
    forall|k: int|
        0 <= k < beats.len() - 1 ==> i64::MIN <= #[trigger] gap(beats[k], beats[k + 1])
            <= i64::MAX
}

/// The smallest instant of the non-empty `ts`.
pub open spec fn is_least(m: i64, ts: Seq<i64>) -> bool {
    ts.contains(m) && forall|i: int| 0 <= i < ts.len() ==> m <= ts[i]
}

/// Why a batch is refused.
#[derive(Clone, Copy, Debug, PartialEq, Eq, Structural)]
pub enum BatchError {
    /// The batch holds no timestamps.
    Empty,
}

/// What a batch does to the stored absences: `deleted` are removed, `kept` stay,
/// and `created` are added (their `id` is assigned when they are stored).
#[derive(Debug)]
pub struct BatchPlan {
    pub deleted: Vec<Absence>,
    pub kept: Vec<Absence>,
    pub created: Vec<Absence>,
}

/// Handles one beat `arrived` that comes after every stored beat. `last` is the
/// latest beat stored before it, if any. The gap since `last` is observed by the
/// watermark, and is returned as an absence to store when it reaches the
/// threshold.
pub fn beat(last: Option<Beat>, arrived: &Beat, watermark: &mut Watermark) -> (r: Option<
    Absence,
>)
    requires
        match last {
            Some(l) => i64::MIN <= gap(l, *arrived) <= i64::MAX,
            None => true,
        },
    ensures
        match last {
            None => r is None && final(watermark)@ == old(watermark)@,
            Some(l) => {
                &&& final(watermark)@ == max(old(watermark)@, gap(l, *arrived))
                &&& gap(l, *arrived) >= ABSENCE_THRESHOLD ==> r == Some(gap_absence(l, *arrived))
                &&& gap(l, *arrived) < ABSENCE_THRESHOLD ==> r is None
            },
        },
{
    match last {
        None => None,
        Some(l) => {
            let duration = arrived.timestamp - l.timestamp;
            watermark.observe(duration);
            if duration >= ABSENCE_THRESHOLD {
                Some(
                    Absence {
                        id: 0,
                        timestamp: arrived.timestamp,
                        duration,
                        begin_beat: l.id,
                        end_beat: arrived.id,
                    },
                )
            } else {
                None
            }
        },
    }
}

/// The earliest of the timestamps of a batch; `Empty` where there are none.
pub fn first_timestamp(timestamps: &Vec<i64>) -> (r: Result<i64, BatchError>)
    ensures
        timestamps@.len() == 0 <==> r == Err::<i64, BatchError>(BatchError::Empty),
        r matches Ok(m) ==> is_least(m, timestamps@),
{
    if timestamps.len() == 0 {
        return Err(BatchError::Empty);
    }
    let mut m = timestamps[0];
    let mut i: usize = 1;
    assert(timestamps@.subrange(0, 1)[0] == m);
    while i < timestamps.len()
        invariant
            1 <= i <= timestamps@.len(),
            timestamps@.subrange(0, i as int).contains(m),
            forall|j: int| 0 <= j < i ==> m <= timestamps@[j],
        decreases timestamps@.len() - i,
    {
        if timestamps[i] < m {
            m = timestamps[i];
            assert(timestamps@.subrange(0, i as int + 1)[i as int] == m);
        } else {
            assert(timestamps@.subrange(0, i as int + 1).contains(m)) by {
                let k = choose|k: int| 0 <= k < i && timestamps@.subrange(0, i as int)[k] == m;
                assert(timestamps@.subrange(0, i as int + 1)[k] == m);
            }
        }
        i = i + 1;
    }
    assert(timestamps@.subrange(0, timestamps@.len() as int) =~= timestamps@);
    Ok(m)
}

/// Whether some instant of `timestamps` falls in `absence`.
fn is_hit(absence: &Absence, timestamps: &Vec<i64>) -> (r: bool)
    ensures
        r == hit(*absence, timestamps@),
{
    let mut i: usize = 0;
    while i < timestamps.len()
        invariant
            0 <= i <= timestamps@.len(),
            forall|j: int| 0 <= j < i ==> !covers(*absence, timestamps@[j] as int),
        decreases timestamps@.len() - i,
    {
        if absence.contains(timestamps[i]) {
            return true;
        }
        i = i + 1;
    }
    false
}

/// Splits `candidates` into the absences that no instant of `timestamps` falls in
/// and those that some instant falls in, each in the order of `candidates`.
fn split_invalidated(candidates: Vec<Absence>, timestamps: &Vec<i64>) -> (r: (
    Vec<Absence>,
    Vec<Absence>,
))
    ensures
        r.0@ == untouched(candidates@, timestamps@),
        r.1@ == invalidated(candidates@, timestamps@),
{
    let mut kept: Vec<Absence> = Vec::new();
    let mut deleted: Vec<Absence> = Vec::new();
    let mut i: usize = 0;
    while i < candidates.len()
        invariant
            0 <= i <= candidates@.len(),
            kept@ == untouched(candidates@.subrange(0, i as int), timestamps@),
            deleted@ == invalidated(candidates@.subrange(0, i as int), timestamps@),
        decreases candidates@.len() - i,
    {
        let a = candidates[i];
        let ghost prefix = candidates@.subrange(0, i as int + 1);
        assert(prefix.drop_last() =~= candidates@.subrange(0, i as int));
        assert(prefix.last() == a);
        reveal(Seq::filter);
        if is_hit(&a, timestamps) {
            deleted.push(a);
        } else {
            kept.push(a);
        }
        i = i + 1;
    }
    assert(candidates@.subrange(0, candidates@.len() as int) =~= candidates@);
    (kept, deleted)
}

/// Whether `absences` holds an absence from beat `prev` to beat `cur`.
fn is_represented(absences: &Vec<Absence>, prev: &Beat, cur: &Beat) -> (r: bool)
    ensures
        r == represented(absences@, *prev, *cur),
{
    let mut j: usize = 0;
    while j < absences.len()
        invariant
            0 <= j <= absences@.len(),
            forall|i: int|
                0 <= i < j ==> !(absences@[i].begin_beat == prev.id && absences@[i].end_beat
                    == cur.id),
        decreases absences@.len() - j,
    {
        if absences[j].begin_beat == prev.id && absences[j].end_beat == cur.id {
            return true;
        }
        j = j + 1;
    }
    false
}

/// Walks the consecutive pairs of `beats`. Each pair not yet represented in `kept`
/// has its gap observed by the watermark, and gives a new absence when the gap
/// reaches the threshold.
fn regenerate(beats: &Vec<Beat>, kept: &Vec<Absence>, watermark: &mut Watermark) -> (r: Vec<
    Absence,
>)
    requires
        gaps_fit(beats@),
    ensures
        r@ == created_upto(beats@, kept@, pair_count(beats@)),
        final(watermark)@ == watermark_upto(old(watermark)@, beats@, kept@, pair_count(beats@)),
{
    let mut created: Vec<Absence> = Vec::new();
    if beats.len() == 0 {
        return created;
    }
    let pairs = beats.len() - 1;
    let mut k: usize = 0;
    while k < pairs
        invariant
            pairs == beats@.len() - 1,
            0 <= k <= pairs,
            gaps_fit(beats@),
            created@ == created_upto(beats@, kept@, k as int),
            watermark@ == watermark_upto(old(watermark)@, beats@, kept@, k as int),
        decreases beats@.len() - k,
    {
        let prev = &beats[k];
        let cur = &beats[k + 1];
        if !is_represented(kept, prev, cur) {
            assert(i64::MIN <= gap(beats@[k as int], beats@[k + 1]) <= i64::MAX);
            let duration = cur.timestamp - prev.timestamp;
            watermark.observe(duration);
            if duration >= ABSENCE_THRESHOLD {
                created.push(
                    Absence {
                        id: 0,
                        timestamp: cur.timestamp,
                        duration,
                        begin_beat: prev.id,
                        end_beat: cur.id,
                    },
                );
            }
        }
        k = k + 1;
    }
    created
}

/// Plans the absences for a batch of new beats at `timestamps`, which have already
/// been added to the timeline. `beats` are the device's beats from the earliest of
/// `timestamps` on, in ascending order of time, and `candidates` the absences that
/// end after that instant. An absence that a new beat falls in is deleted; each
/// pair of consecutive beats that no remaining absence covers has its gap observed
/// by the watermark, and becomes a new absence when the gap reaches the threshold.
/// An empty batch is refused before anything else.
pub fn batch(
    timestamps: &Vec<i64>,
    beats: &Vec<Beat>,
    candidates: Vec<Absence>,
    watermark: &mut Watermark,
) -> (r: Result<BatchPlan, BatchError>)
    requires
        gaps_fit(beats@),
    ensures
        timestamps@.len() == 0 <==> r is Err,
        r matches Err(e) ==> e == BatchError::Empty && final(watermark)@ == old(watermark)@,
        r matches Ok(plan) ==> {
            &&& plan.kept@ == untouched(candidates@, timestamps@)
            &&& plan.deleted@ == invalidated(candidates@, timestamps@)
            &&& plan.created@ == created_upto(beats@, plan.kept@, pair_count(beats@))
            &&& final(watermark)@ == watermark_upto(
                old(watermark)@,
                beats@,
                plan.kept@,
                pair_count(beats@),
            )
        },
{
    if timestamps.len() == 0 {
        return Err(BatchError::Empty);
    }
    let (kept, deleted) = split_invalidated(candidates, timestamps);
    let created = regenerate(beats, &kept, watermark);
    Ok(BatchPlan { deleted, kept, created })
}

/// Whether no two of `absences` run from the same beat to the same beat.
pub open spec fn distinct_pairs(absences: Seq<Absence>) -> bool {
    forall|i: int, j: int|
        0 <= i < j < absences.len() ==> !(absences[i].begin_beat == absences[j].begin_beat
            && absences[i].end_beat == absences[j].end_beat)
}

/// Whether no two of `beats` share an id.
pub open spec fn distinct_ids(beats: Seq<Beat>) -> bool {
    forall|i: int, j: int| 0 <= i < j < beats.len() ==> beats[i].id != beats[j].id
}

/// What a filter keeps comes from the sequence filtered, and keeps its distinct pairs.
proof fn lemma_filter_within(s: Seq<Absence>, pred: spec_fn(Absence) -> bool)
    ensures
        forall|i: int| 0 <= i < s.filter(pred).len() ==> s.contains(#[trigger] s.filter(pred)[i]),
        distinct_pairs(s) ==> distinct_pairs(s.filter(pred)),
    decreases s.len(),
{
    reveal(Seq::filter);
    if s.len() > 0 {
        let init = s.drop_last();
        lemma_filter_within(init, pred);
        let out = s.filter(pred);
        assert forall|i: int| 0 <= i < out.len() implies s.contains(#[trigger] out[i]) by {
            if i < init.filter(pred).len() {
                assert(out[i] == init.filter(pred)[i]);
                let j = choose|j: int| 0 <= j < init.len() && init[j] == out[i];
                assert(s[j] == out[i]);
            } else {
                assert(out[i] == s.last());
                assert(s[s.len() - 1] == out[i]);
            }
        }
        if distinct_pairs(s) {
            assert forall|i: int, j: int|
                0 <= i < j < out.len() implies !(out[i].begin_beat == out[j].begin_beat
                && out[i].end_beat == out[j].end_beat) by {
                if j < init.filter(pred).len() {
                    assert(out[i] == init.filter(pred)[i]);
                    assert(out[j] == init.filter(pred)[j]);
                    assert(distinct_pairs(init));
                } else {
                    assert(out[j] == s.last());
                    assert(out[i] == init.filter(pred)[i]);
                    let k = choose|k: int| 0 <= k < init.len() && init[k] == out[i];
                    assert(s[k] == out[i]);
                }
            }
        }
    }
}

/// Every absence created for the first `n` pairs comes from a fresh pair among them
/// whose gap reaches the threshold; and they run between distinct pairs of beats.
proof fn lemma_created_sound(beats: Seq<Beat>, kept: Seq<Absence>, n: int)
    requires
        n <= pair_count(beats),
    ensures
        forall|i: int|
            0 <= i < created_upto(beats, kept, n).len() ==> exists|k: int|
                0 <= k < n && fresh_pair(beats, kept, k) && gap(beats[k], beats[k + 1])
                    >= ABSENCE_THRESHOLD && #[trigger] created_upto(beats, kept, n)[i]
                    == gap_absence(beats[k], beats[k + 1]),
        distinct_ids(beats) ==> distinct_pairs(created_upto(beats, kept, n)),
    decreases n,
{
    if n > 0 {
        lemma_created_sound(beats, kept, n - 1);
        let rest = created_upto(beats, kept, n - 1);
        let out = created_upto(beats, kept, n);
        assert forall|i: int| 0 <= i < out.len() implies exists|k: int|
            0 <= k < n && fresh_pair(beats, kept, k) && gap(beats[k], beats[k + 1])
                >= ABSENCE_THRESHOLD && #[trigger] out[i] == gap_absence(beats[k], beats[k + 1]) by {
            if i < rest.len() {
                assert(out[i] == rest[i]);
            }
        }
        if distinct_ids(beats) {
            assert forall|i: int, j: int|
                0 <= i < j < out.len() implies !(out[i].begin_beat == out[j].begin_beat
                && out[i].end_beat == out[j].end_beat) by {
                if j < rest.len() {
                    assert(out[i] == rest[i]);
                    assert(out[j] == rest[j]);
                } else {
                    assert(out[i] == rest[i]);
                    let k = choose|k: int|
                        0 <= k < n - 1 && fresh_pair(beats, kept, k) && gap(beats[k], beats[k + 1])
                            >= ABSENCE_THRESHOLD && #[trigger] rest[i] == gap_absence(
                            beats[k],
                            beats[k + 1],
                        );
                    assert(beats[k].id != beats[n - 1].id);
                }
            }
        }
    }
}

/// A fresh pair among the first `n` whose gap reaches the threshold gets its absence.
proof fn lemma_created_complete(beats: Seq<Beat>, kept: Seq<Absence>, n: int, k: int)
    requires
        0 <= k < n <= pair_count(beats),
        fresh_pair(beats, kept, k),
        gap(beats[k], beats[k + 1]) >= ABSENCE_THRESHOLD,
    ensures
        created_upto(beats, kept, n).contains(gap_absence(beats[k], beats[k + 1])),
    decreases n,
{
    let out = created_upto(beats, kept, n);
    if k == n - 1 {
        assert(out[out.len() - 1] == gap_absence(beats[k], beats[k + 1]));
    } else {
        lemma_created_complete(beats, kept, n - 1, k);
        let rest = created_upto(beats, kept, n - 1);
        let j = choose|j: int| 0 <= j < rest.len() && rest[j] == gap_absence(beats[k], beats[k + 1]);
        assert(out[j] == rest[j]);
    }
}

/// The watermark after the first `n` pairs is at least where it started and at least
/// the gap of each fresh pair among them.
proof fn lemma_watermark_bounds(w: int, beats: Seq<Beat>, kept: Seq<Absence>, n: int)
    requires
        n <= pair_count(beats),
    ensures
        w <= watermark_upto(w, beats, kept, n),
        forall|k: int|
            0 <= k < n && #[trigger] fresh_pair(beats, kept, k) ==> gap(beats[k], beats[k + 1])
                <= watermark_upto(w, beats, kept, n),
    decreases n,
{
    if n > 0 {
        lemma_watermark_bounds(w, beats, kept, n - 1);
    }
}

/// Running the batch's regeneration a second time over the same beats, with the
/// absences that the first run left, creates no absence and leaves the watermark
/// where the first run put it.
pub proof fn lemma_regeneration_idempotent(w: int, beats: Seq<Beat>, kept: Seq<Absence>)
    ensures
        created_upto(
            beats,
            kept + created_upto(beats, kept, pair_count(beats)),
            pair_count(beats),
        ).len() == 0,
        watermark_upto(
            watermark_upto(w, beats, kept, pair_count(beats)),
            beats,
            kept + created_upto(beats, kept, pair_count(beats)),
            pair_count(beats),
        ) == watermark_upto(w, beats, kept, pair_count(beats)),
{
    let n = pair_count(beats);
    lemma_rerun(w, beats, kept, n);
}

/// Induction for `lemma_regeneration_idempotent` over the first `m` pairs.
proof fn lemma_rerun(w: int, beats: Seq<Beat>, kept: Seq<Absence>, m: int)
    requires
        m <= pair_count(beats),
    ensures
        created_upto(
            beats,
            kept + created_upto(beats, kept, pair_count(beats)),
            m,
        ).len() == 0,
        watermark_upto(
            watermark_upto(w, beats, kept, pair_count(beats)),
            beats,
            kept + created_upto(beats, kept, pair_count(beats)),
            m,
        ) == watermark_upto(w, beats, kept, pair_count(beats)),
    decreases m,
{
    let n = pair_count(beats);
    let created = created_upto(beats, kept, n);
    let all = kept + created;
    let w1 = watermark_upto(w, beats, kept, n);
    if m > 0 {
        lemma_rerun(w, beats, kept, m - 1);
        let k = m - 1;
        if fresh_pair(beats, all, k) {
            assert(fresh_pair(beats, kept, k)) by {
                if represented(kept, beats[k], beats[k + 1]) {
                    let j = choose|j: int|
                        0 <= j < kept.len() && kept[j].begin_beat == beats[k].id
                            && kept[j].end_beat == beats[k + 1].id;
                    assert(all[j] == kept[j]);
                }
            }
            if gap(beats[k], beats[k + 1]) >= ABSENCE_THRESHOLD {
                lemma_created_complete(beats, kept, n, k);
                let j = choose|j: int|
                    0 <= j < created.len() && created[j] == gap_absence(beats[k], beats[k + 1]);
                assert(all[kept.len() + j] == created[j]);
            }
            lemma_watermark_bounds(w, beats, kept, n);
        }
    }
}

/// After a batch, no two of the absences that remain and that it creates run
/// between the same two beats, provided the stored ones did not and the beats have
/// distinct ids.
pub proof fn lemma_no_duplicate_pairs(ts: Seq<i64>, beats: Seq<Beat>, candidates: Seq<Absence>)
    requires
        distinct_pairs(candidates),
        distinct_ids(beats),
    ensures
        distinct_pairs(
            untouched(candidates, ts) + created_upto(
                beats,
                untouched(candidates, ts),
                pair_count(beats),
            ),
        ),
{
    let kept = untouched(candidates, ts);
    let n = pair_count(beats);
    let created = created_upto(beats, kept, n);
    let all = kept + created;
    lemma_filter_within(candidates, |a: Absence| !hit(a, ts));
    lemma_created_sound(beats, kept, n);
    assert forall|i: int, j: int|
        0 <= i < j < all.len() implies !(all[i].begin_beat == all[j].begin_beat
        && all[i].end_beat == all[j].end_beat) by {
        if j < kept.len() {
        } else if i >= kept.len() {
            assert(all[i] == created[i - kept.len()]);
            assert(all[j] == created[j - kept.len()]);
        } else {
            assert(all[j] == created[j - kept.len()]);
            let k = choose|k: int|
                0 <= k < n && fresh_pair(beats, kept, k) && gap(beats[k], beats[k + 1])
                    >= ABSENCE_THRESHOLD && #[trigger] created[j - kept.len()] == gap_absence(
                    beats[k],
                    beats[k + 1],
                );
            if all[i].begin_beat == all[j].begin_beat && all[i].end_beat == all[j].end_beat {
                assert(represented(kept, beats[k], beats[k + 1]));
            }
        }
    }
}

/// A new beat at an instant strictly inside a recorded absence deletes that
/// absence; where the reloaded `beats` hold both beats of the absence around the new
/// one, the two gaps on either side of the new beat, each shorter than the absence,
/// are each recorded exactly when they reach the threshold. The new beat is
/// `beats[k + 1]`; being new, no stored absence refers to it. (The reload starts at
/// the earliest instant of the batch, so it holds `beats[k]` only where the batch
/// also has an instant no later than that beat.)
pub proof fn lemma_split_absence(
    ts: Seq<i64>,
    beats: Seq<Beat>,
    candidates: Seq<Absence>,
    a: Absence,
    k: int,
)
    requires
        candidates.contains(a),
        distinct_ids(beats),
        0 <= k && k + 2 < beats.len(),
        a.begin_beat == beats[k].id,
        a.end_beat == beats[k + 2].id,
        start_of(a) == beats[k].timestamp,
        a.timestamp == beats[k + 2].timestamp,
        beats[k].timestamp < beats[k + 1].timestamp < beats[k + 2].timestamp,
        ts.contains(beats[k + 1].timestamp),
        forall|j: int|
            0 <= j < candidates.len() ==> candidates[j].begin_beat != beats[k + 1].id
                && candidates[j].end_beat != beats[k + 1].id,
    ensures
        invalidated(candidates, ts).contains(a),
        !untouched(candidates, ts).contains(a),
        gap(beats[k], beats[k + 1]) < a.duration,
        gap(beats[k + 1], beats[k + 2]) < a.duration,
        created_upto(beats, untouched(candidates, ts), pair_count(beats)).contains(
            gap_absence(beats[k], beats[k + 1]),
        ) <==> gap(beats[k], beats[k + 1]) >= ABSENCE_THRESHOLD,
        created_upto(beats, untouched(candidates, ts), pair_count(beats)).contains(
            gap_absence(beats[k + 1], beats[k + 2]),
        ) <==> gap(beats[k + 1], beats[k + 2]) >= ABSENCE_THRESHOLD,
{
    broadcast use vstd::seq_lib::group_filter_ensures;

    let kept = untouched(candidates, ts);
    let n = pair_count(beats);
    let created = created_upto(beats, kept, n);
    let i = choose|i: int| 0 <= i < ts.len() && ts[i] == beats[k + 1].timestamp;
    assert(covers(a, ts[i] as int));
    assert(hit(a, ts));
    let c = choose|c: int| 0 <= c < candidates.len() && candidates[c] == a;
    assert(invalidated(candidates, ts).contains(candidates[c]));
    if kept.contains(a) {
        let j = choose|j: int| 0 <= j < kept.len() && kept[j] == a;
        assert(!hit(kept[j], ts));
    }
    lemma_filter_within(candidates, |a: Absence| !hit(a, ts));
    assert(fresh_pair(beats, kept, k)) by {
        if represented(kept, beats[k], beats[k + 1]) {
            let j = choose|j: int|
                0 <= j < kept.len() && kept[j].begin_beat == beats[k].id && kept[j].end_beat
                    == beats[k + 1].id;
            assert(candidates.contains(kept[j]));
        }
    }
    assert(fresh_pair(beats, kept, k + 1)) by {
        if represented(kept, beats[k + 1], beats[k + 2]) {
            let j = choose|j: int|
                0 <= j < kept.len() && kept[j].begin_beat == beats[k + 1].id && kept[j].end_beat
                    == beats[k + 2].id;
            assert(candidates.contains(kept[j]));
        }
    }
    lemma_created_sound(beats, kept, n);
    if gap(beats[k], beats[k + 1]) >= ABSENCE_THRESHOLD {
        lemma_created_complete(beats, kept, n, k);
    } else if created.contains(gap_absence(beats[k], beats[k + 1])) {
        let j = choose|j: int| 0 <= j < created.len() && created[j] == gap_absence(
            beats[k],
            beats[k + 1],
        );
        let q = choose|q: int|
            0 <= q < n && fresh_pair(beats, kept, q) && gap(beats[q], beats[q + 1])
                >= ABSENCE_THRESHOLD && #[trigger] created[j] == gap_absence(beats[q], beats[q + 1]);
        assert(beats[q].id == beats[k].id);
    }
    if gap(beats[k + 1], beats[k + 2]) >= ABSENCE_THRESHOLD {
        lemma_created_complete(beats, kept, n, k + 1);
    } else if created.contains(gap_absence(beats[k + 1], beats[k + 2])) {
        let j = choose|j: int| 0 <= j < created.len() && created[j] == gap_absence(
            beats[k + 1],
            beats[k + 2],
        );
        let q = choose|q: int|
            0 <= q < n && fresh_pair(beats, kept, q) && gap(beats[q], beats[q + 1])
                >= ABSENCE_THRESHOLD && #[trigger] created[j] == gap_absence(beats[q], beats[q + 1]);
        assert(beats[q].id == beats[k + 1].id);
    }
}

/// A batch moves the watermark at most to the longest gap that it looked at: after
/// it, the watermark is where it was or is the gap of one of the fresh pairs.
pub proof fn lemma_watermark_is_a_gap(w: int, beats: Seq<Beat>, kept: Seq<Absence>, n: int)
    requires
        n <= pair_count(beats),
    ensures
        watermark_upto(w, beats, kept, n) == w || exists|k: int|
            0 <= k < n && fresh_pair(beats, kept, k) && watermark_upto(w, beats, kept, n) == gap(
                beats[k],
                beats[k + 1],
            ),
    decreases n,
{
    if n > 0 {
        lemma_watermark_is_a_gap(w, beats, kept, n - 1);
    }
}

} // verus!
