//! Grain tables: which grain applies when.
use crate::grain::{FilmGrainParams, GrainModel, GrainTableSegment, SegmentModel};
use crate::timing::{
    frame_index_to_grain_ts, frame_ts, law_frames_advance, FrameRate, UNITS_PER_SECOND,
};
use vstd::prelude::*;

verus! {

/// A table, as specifications see it.
pub open spec fn table_view(table: Seq<GrainTableSegment>) -> Seq<SegmentModel> {
    table.map_values(|segment: GrainTableSegment| segment@)
}

/// A timestamp is within a segment.
pub open spec fn covers(segment: SegmentModel, timestamp: int) -> bool {
    segment.start_time <= timestamp < segment.end_time
}

/// The grain of the first segment that a timestamp is within.
pub open spec fn grain_at(table: Seq<SegmentModel>, timestamp: int) -> Option<GrainModel>
    decreases table.len(),
{
    if table.len() == 0 {
        None
    } else if covers(table[0], timestamp) {
        Some(table[0].grain_params)
    } else {
        grain_at(table.skip(1), timestamp)
    }
}

/// The grain of the first segment that a timestamp is within.
pub fn segment_for_ts(segments: &[GrainTableSegment], timestamp: u64) -> (r: Option<
    &FilmGrainParams,
>)
    ensures
        match (r, grain_at(table_view(segments@), timestamp as int)) {
            (Some(params), Some(grain)) => params@ == grain,
            (None, None) => true,
            _ => false,
        },
{
    let ghost all = table_view(segments@);
    let mut i: usize = 0;
    assert(all.skip(0) =~= all);
    while i < segments.len()
        invariant
            all == table_view(segments@),
            i <= segments@.len(),
            grain_at(all, timestamp as int) == grain_at(all.skip(i as int), timestamp as int),
        decreases segments@.len() - i,
    {
        assert(all.skip(i as int)[0] == segments@[i as int]@);
        assert(all.skip(i as int).skip(1) =~= all.skip(i + 1));
        let segment: &GrainTableSegment = &segments[i];
        if segment.start_time <= timestamp && timestamp < segment.end_time {
            return Some(&segment.grain_params);
        }
        i = i + 1;
    }
    None
}

/// What a table becomes when a frame with this grain comes next: the last segment goes on if it
/// ends where the frame begins and has the same grain, and otherwise a new one begins.
pub open spec fn extended(
    table: Seq<SegmentModel>,
    grain: GrainModel,
    start: int,
    end: int,
) -> Seq<SegmentModel> {
    if table.len() > 0 && table.last().end_time == start && table.last().grain_params == grain {
        table.update(table.len() - 1, (SegmentModel { end_time: end as u64, ..table.last() }))
    } else {
        table.push(
            SegmentModel { start_time: start as u64, end_time: end as u64, grain_params: grain },
        )
    }
}

/// The table of the first `n` frames.
pub open spec fn table_of(frames: Seq<Option<GrainModel>>, rate: FrameRate, n: nat) -> Seq<
    SegmentModel,
>
    decreases n,
{
    if n == 0 {
        Seq::empty()
    } else {
        let table = table_of(frames, rate, (n - 1) as nat);
        match frames[n - 1] {
            Some(grain) => extended(
                table,
                grain,
                frame_ts(n - 1, rate),
                frame_ts(n as int, rate),
            ),
            None => table,
        }
    }
}

/// A table whose last segment goes on for good.
pub open spec fn open_ended(table: Seq<SegmentModel>) -> Seq<SegmentModel> {
    if table.len() == 0 {
        table
    } else {
        table.update(
            table.len() - 1,
            (SegmentModel { end_time: i64::MAX as u64, ..table.last() }),
        )
    }
}

/// The table of frames in the order in which they are shown.
pub open spec fn grain_table(frames: Seq<Option<GrainModel>>, rate: FrameRate) -> Seq<
    SegmentModel,
> {
    open_ended(table_of(frames, rate, frames.len()))
}

/// The grain of frames, as specifications see it.
pub open spec fn frames_view(frames: Seq<Option<FilmGrainParams>>) -> Seq<Option<GrainModel>> {
    frames.map_values(
        |params: Option<FilmGrainParams>|
            match params {
                Some(p) => Some(p@),
                None => None,
            },
    )
}

/// The end of the last segment of a table is moved.
fn end_last(segments: &mut Vec<GrainTableSegment>, end_time: u64)
    requires
        old(segments)@.len() > 0,
    ensures
        table_view(final(segments)@) == table_view(old(segments)@).update(
            old(segments)@.len() - 1,
            (SegmentModel { end_time, ..table_view(old(segments)@).last() }),
        ),
{
    let ghost before = segments@;
    match segments.pop() {
        Some(last) => {
            segments.push(
                GrainTableSegment {
                    start_time: last.start_time,
                    end_time,
                    grain_params: last.grain_params,
                },
            );
            assert(table_view(segments@) =~= table_view(before).update(
                before.len() - 1,
                (SegmentModel { end_time, ..table_view(before).last() }),
            ));
        },
        None => {},
    }
}

/// The table of frames in the order in which they are shown: frames with the same grain in a row
/// share a segment, and the last segment goes on for good.
pub fn aggregate_hevc_grain(
    params_by_frame: &[Option<FilmGrainParams>],
    frame_rate: FrameRate,
) -> (r: Vec<GrainTableSegment>)
    ensures
        table_view(r@) == grain_table(frames_view(params_by_frame@), frame_rate),
{
    let ghost frames = frames_view(params_by_frame@);
    let mut segments: Vec<GrainTableSegment> = Vec::new();
    let mut i: usize = 0;
    assert(table_view(segments@) =~= Seq::empty());
    while i < params_by_frame.len()
        invariant
            frames == frames_view(params_by_frame@),
            i <= params_by_frame@.len(),
            table_view(segments@) == table_of(frames, frame_rate, i as nat),
        decreases params_by_frame@.len() - i,
    {
        let start: u64 = frame_index_to_grain_ts(i, frame_rate);
        let end: u64 = frame_index_to_grain_ts(i + 1, frame_rate);
        match &params_by_frame[i] {
            Some(params) => {
                assert(frames[i as int] == Some(params@));
                let ghost before = segments@;
                let goes_on: bool = segments.len() > 0 && segments[segments.len() - 1].end_time
                    == start && *params == segments[segments.len() - 1].grain_params;
                if goes_on {
                    assert(table_view(before).last() == before.last()@);
                    end_last(&mut segments, end);
                } else {
                    segments.push(
                        GrainTableSegment {
                            start_time: start,
                            end_time: end,
                            grain_params: params.clone(),
                        },
                    );
                    assert(before.len() > 0 ==> table_view(before).last() == before.last()@);
                    assert(table_view(segments@) =~= table_view(before).push(
                        SegmentModel { start_time: start, end_time: end, grain_params: params@ },
                    ));
                }
            },
            None => {
                assert(frames[i as int] is None);
            },
        }
        i = i + 1;
    }
    if segments.len() > 0 {
        end_last(&mut segments, i64::MAX as u64);
    }
    segments
}

/// Every frame is shown later than the one before it, and the first `n` of them before the end of
/// time.
pub open spec fn shown_in_turn(rate: FrameRate, n: nat) -> bool {
    &&& forall|i: int, j: int|
        0 <= i < j <= n ==> #[trigger] frame_ts(i, rate) < #[trigger] frame_ts(j, rate)
    &&& forall|i: int| 0 <= i < n ==> #[trigger] frame_ts(i, rate) < i64::MAX
}

/// The segments follow each other without overlap, none is empty, and the last ends no later
/// than `end`.
pub open spec fn in_turn(table: Seq<SegmentModel>, end: int) -> bool {
    &&& forall|i: int|
        0 <= i < table.len() ==> (#[trigger] table[i]).start_time < table[i].end_time <= end
    &&& forall|i: int, j: int|
        0 <= i < j < table.len() ==> (#[trigger] table[i]).end_time <= (
        #[trigger] table[j]).start_time
}

/// The grain at a time that the segment at `i` covers.
proof fn lemma_grain_at(table: Seq<SegmentModel>, end: int, i: int, timestamp: int)
    requires
        in_turn(table, end),
        0 <= i < table.len(),
        covers(table[i], timestamp),
    ensures
        grain_at(table, timestamp) == Some(table[i].grain_params),
    decreases table.len(),
{
    if i > 0 {
        assert(table[0].end_time <= table[i].start_time);
        let rest = table.skip(1);
        assert(in_turn(rest, end)) by {
            assert forall|k: int| 0 <= k < rest.len() implies (#[trigger] rest[k]).start_time
                < rest[k].end_time <= end by {
                assert(rest[k] == table[k + 1]);
            }
            assert forall|k: int, l: int| 0 <= k < l < rest.len() implies (
            #[trigger] rest[k]).end_time <= (#[trigger] rest[l]).start_time by {
                assert(rest[k] == table[k + 1] && rest[l] == table[l + 1]);
            }
        }
        lemma_grain_at(rest, end, i - 1, timestamp);
    }
}

/// There is no grain at a time that no segment covers.
proof fn lemma_no_grain_at(table: Seq<SegmentModel>, timestamp: int)
    requires
        forall|i: int| 0 <= i < table.len() ==> !covers(#[trigger] table[i], timestamp),
    ensures
        grain_at(table, timestamp) is None,
    decreases table.len(),
{
    if table.len() > 0 {
        let rest = table.skip(1);
        assert forall|i: int| 0 <= i < rest.len() implies !covers(
            #[trigger] rest[i],
            timestamp,
        ) by {
            assert(rest[i] == table[i + 1]);
        }
        assert(!covers(table[0], timestamp));
        lemma_no_grain_at(rest, timestamp);
    }
}

/// A segment of a table covers a frame and has its grain, or no segment covers it.
pub open spec fn frame_in_table(
    table: Seq<SegmentModel>,
    frame: Option<GrainModel>,
    timestamp: int,
) -> bool {
    match frame {
        Some(grain) => exists|k: int|
            0 <= k < table.len() && covers(#[trigger] table[k], timestamp) && table[k].grain_params
                == grain,
        None => forall|k: int|
            0 <= k < table.len() ==> !covers(#[trigger] table[k], timestamp),
    }
}

/// The table of the first `n` frames covers exactly those that have grain.
proof fn lemma_table(frames: Seq<Option<GrainModel>>, rate: FrameRate, n: nat)
    requires
        n <= frames.len(),
        shown_in_turn(rate, frames.len()),
    ensures
        in_turn(table_of(frames, rate, n), frame_ts(n as int, rate)),
        forall|i: int|
            0 <= i < n ==> frame_in_table(
                table_of(frames, rate, n),
                #[trigger] frames[i],
                frame_ts(i, rate),
            ),
    decreases n,
{
    if n > 0 {
        lemma_table(frames, rate, (n - 1) as nat);
        let before = table_of(frames, rate, (n - 1) as nat);
        let table = table_of(frames, rate, n);
        let start = frame_ts(n - 1, rate);
        let end = frame_ts(n as int, rate);
        assert(start < end);
        if let Some(grain) = frames[n - 1] {
            assert(table == extended(before, grain, start, end));
            let last = table.len() - 1;
            assert(covers(table[last], start)) by {
                if before.len() > 0 {
                    assert(before[before.len() - 1] == before.last());
                }
            }
            assert forall|k: int| 0 <= k < table.len() implies (#[trigger] table[k]).start_time
                < table[k].end_time <= end by {
                if k < before.len() {
                    assert(before[k].start_time < before[k].end_time <= start);
                }
            }
            assert forall|k: int, l: int| 0 <= k < l < table.len() implies (
            #[trigger] table[k]).end_time <= (#[trigger] table[l]).start_time by {
                assert(table[k] == before[k]);
                if l < before.len() {
                    assert(before[k].end_time <= before[l].start_time);
                }
            }
        }
        assert forall|i: int| 0 <= i < n implies frame_in_table(
            table,
            #[trigger] frames[i],
            frame_ts(i, rate),
        ) by {
            let ts = frame_ts(i, rate);
            if i < n - 1 {
                assert(frame_in_table(before, frames[i], ts));
                assert(ts < start);
                match frames[i] {
                    Some(grain) => {
                        let k = choose|k: int|
                            0 <= k < before.len() && covers(#[trigger] before[k], ts)
                                && before[k].grain_params == grain;
                        assert(covers(table[k], ts) && table[k].grain_params == grain);
                    },
                    None => {
                        assert forall|k: int| 0 <= k < table.len() implies !covers(
                            #[trigger] table[k],
                            ts,
                        ) by {
                            if k < before.len() {
                                assert(!covers(before[k], ts));
                                assert(before[k].end_time <= start);
                            }
                        }
                    },
                }
            } else {
                match frames[i] {
                    Some(grain) => {
                        let last = table.len() - 1;
                        assert(covers(table[last], ts) && table[last].grain_params == grain);
                    },
                    None => {
                        assert forall|k: int| 0 <= k < table.len() implies !covers(
                            #[trigger] table[k],
                            ts,
                        ) by {
                            assert(before[k].end_time <= start);
                        }
                    },
                }
            }
        }
    }
}

/// Law: the segments of a table follow each other without overlap, and none is empty.
pub proof fn law_table_in_turn(frames: Seq<Option<GrainModel>>, rate: FrameRate)
    requires
        shown_in_turn(rate, frames.len()),
    ensures
        in_turn(grain_table(frames, rate), i64::MAX as int),
{
    lemma_table(frames, rate, frames.len());
    lemma_starts(frames, rate, frames.len());
    let before = table_of(frames, rate, frames.len());
    let table = grain_table(frames, rate);
    assert forall|k: int| 0 <= k < table.len() implies (#[trigger] table[k]).start_time
        < table[k].end_time <= i64::MAX by {
        assert(before[k].start_time < before[k].end_time);
        if k < table.len() - 1 {
            assert(before[k].end_time <= before[before.len() - 1].start_time);
        }
    }
    assert forall|k: int, l: int| 0 <= k < l < table.len() implies (#[trigger] table[k]).end_time
        <= (#[trigger] table[l]).start_time by {
        assert(before[k].end_time <= before[l].start_time);
    }
}

/// Every segment begins where some frame is shown.
proof fn lemma_starts(frames: Seq<Option<GrainModel>>, rate: FrameRate, n: nat)
    requires
        n <= frames.len(),
        shown_in_turn(rate, frames.len()),
    ensures
        forall|k: int|
            0 <= k < table_of(frames, rate, n).len() ==> (#[trigger] table_of(
                frames,
                rate,
                n,
            )[k]).start_time < i64::MAX,
    decreases n,
{
    if n > 0 {
        lemma_starts(frames, rate, (n - 1) as nat);
        let before = table_of(frames, rate, (n - 1) as nat);
        let table = table_of(frames, rate, n);
        assert(frame_ts(n - 1, rate) < i64::MAX);
        assert forall|k: int| 0 <= k < table.len() implies (#[trigger] table[k]).start_time
            < i64::MAX by {
            if k < before.len() {
                assert(before[k].start_time < i64::MAX);
            }
        }
    }
}

/// The last segment of the table of the first `n` frames ends where the last of them that has
/// grain ends.
proof fn lemma_last_end(frames: Seq<Option<GrainModel>>, rate: FrameRate, n: nat, j: int)
    requires
        n <= frames.len(),
        0 <= j < n,
        frames[j] is Some,
        shown_in_turn(rate, frames.len()),
    ensures
        table_of(frames, rate, n).len() > 0,
        table_of(frames, rate, n).last().end_time > frame_ts(j, rate),
    decreases n,
{
    assert(frame_ts(n - 1, rate) < frame_ts(n as int, rate));
    if j < n - 1 {
        lemma_last_end(frames, rate, (n - 1) as nat, j);
        assert(frame_ts(j, rate) < frame_ts(n - 1, rate));
    }
}

/// Law: a table gives back the grain of every frame that it was made of. A frame without grain
/// has none in the table either, unless no frame with grain comes behind it, for the last
/// segment goes on for good.
pub proof fn law_table_gives_frames(frames: Seq<Option<GrainModel>>, rate: FrameRate, i: int)
    requires
        shown_in_turn(rate, frames.len()),
        0 <= i < frames.len(),
        frames[i] is None ==> exists|j: int| i < j < frames.len() && (#[trigger] frames[j]) is Some,
    ensures
        grain_at(grain_table(frames, rate), frame_ts(i, rate)) == frames[i],
{
    let n = frames.len();
    lemma_table(frames, rate, n);
    law_table_in_turn(frames, rate);
    let before = table_of(frames, rate, n);
    let table = grain_table(frames, rate);
    let ts = frame_ts(i, rate);
    assert(frame_in_table(before, frames[i], ts));
    match frames[i] {
        Some(grain) => {
            let k = choose|k: int|
                0 <= k < before.len() && covers(#[trigger] before[k], ts) && before[k].grain_params
                    == grain;
            assert(covers(table[k], ts));
            lemma_grain_at(table, i64::MAX as int, k, ts);
        },
        None => {
            let j = choose|j: int| i < j < n && (#[trigger] frames[j]) is Some;
            lemma_last_end(frames, rate, n, j);
            assert(ts < frame_ts(j, rate));
            assert forall|k: int| 0 <= k < table.len() implies !covers(#[trigger] table[k], ts) by {
                assert(!covers(before[k], ts));
            }
            lemma_no_grain_at(table, ts);
        },
    }
}

/// Frames are shown one after the other as long as each next one is shown later.
proof fn lemma_in_turn(rate: FrameRate, n: nat, i: int, j: int)
    requires
        forall|k: int| 0 <= k < n ==> #[trigger] frame_ts(k, rate) < frame_ts(k + 1, rate),
        0 <= i < j <= n,
    ensures
        frame_ts(i, rate) < frame_ts(j, rate),
    decreases j - i,
{
    assert(frame_ts(j - 1, rate) < frame_ts(j - 1 + 1, rate));
    if i < j - 1 {
        lemma_in_turn(rate, n, i, j - 1);
    }
}

/// Law: where a frame is no shorter than the unit of grain tables, the frames of a video that
/// ends before the end of time are shown one after the other.
pub proof fn law_frames_shown_in_turn(rate: FrameRate, n: nat)
    requires
        0 < rate.numer <= rate.denom * UNITS_PER_SECOND,
        n * rate.denom * UNITS_PER_SECOND / rate.numer as int <= i64::MAX,
    ensures
        shown_in_turn(rate, n),
{
    let d = rate.denom as int;
    let m = rate.numer as int;
    assert forall|k: int| 0 <= k < n implies #[trigger] frame_ts(k, rate) < frame_ts(k + 1, rate)
        by {
        lemma_ts_bound(k + 1, n as int, rate);
        law_frames_advance(k, rate);
    }
    assert forall|i: int, j: int| 0 <= i < j <= n implies #[trigger] frame_ts(i, rate)
        < #[trigger] frame_ts(j, rate) by {
        lemma_in_turn(rate, n, i, j);
    }
    assert forall|i: int| 0 <= i < n implies #[trigger] frame_ts(i, rate) < i64::MAX by {
        lemma_in_turn(rate, n, i, n as int);
        lemma_ts_bound(n as int, n as int, rate);
    }
}

/// An earlier frame has the smaller time.
proof fn lemma_ts_bound(k: int, n: int, rate: FrameRate)
    requires
        0 <= k <= n,
        0 < rate.numer <= rate.denom * UNITS_PER_SECOND,
        n * rate.denom * UNITS_PER_SECOND / rate.numer as int <= i64::MAX,
    ensures
        0 <= k * rate.denom * UNITS_PER_SECOND / rate.numer as int <= i64::MAX,
        frame_ts(k, rate) <= i64::MAX,
{
    let d = rate.denom as int;
    let m = rate.numer as int;
    assert(0 <= k * d * 10_000_000 <= n * d * 10_000_000) by (nonlinear_arith)
        requires
            0 <= k <= n,
            0 < d,
    ;
    let a = k * d * 10_000_000;
    let b = n * d * 10_000_000;
    assert(0 <= a / m <= b / m) by (nonlinear_arith)
        requires
            0 <= a <= b,
            0 < m,
    ;
}

/// Law: the grain at a time is that of the first segment that begins no later and ends later, and
/// there is none if there is no such segment.
pub proof fn law_first_segment_counts(table: Seq<SegmentModel>, timestamp: int, k: int)
    requires
        0 <= k <= table.len(),
        forall|i: int|
            0 <= i < k ==> !((#[trigger] table[i]).start_time <= timestamp < table[i].end_time),
    ensures
        k == table.len() ==> grain_at(table, timestamp) is None,
        k < table.len() && table[k].start_time <= timestamp < table[k].end_time ==> grain_at(
            table,
            timestamp,
        ) == Some(table[k].grain_params),
    decreases table.len(),
{
    if k > 0 {
        let rest = table.skip(1);
        assert forall|i: int| 0 <= i < k - 1 implies !((#[trigger] rest[i]).start_time <= timestamp
            < rest[i].end_time) by {
            assert(rest[i] == table[i + 1]);
        }
        assert(!(table[0].start_time <= timestamp < table[0].end_time));
        law_first_segment_counts(rest, timestamp, k - 1);
        if k < table.len() {
            assert(rest[k - 1] == table[k]);
        }
    }
}

/// Of the first `n` frames, those from `from` to `to` have the same grain, and the ones next to
/// them do not.
pub open spec fn is_run(
    frames: Seq<Option<GrainModel>>,
    n: int,
    grain: GrainModel,
    from: int,
    to: int,
) -> bool {
    &&& 0 <= from < to <= n
    &&& forall|i: int| from <= i < to ==> #[trigger] frames[i] == Some(grain)
    &&& from > 0 ==> frames[from - 1] != Some(grain)
    &&& to < n ==> frames[to] != Some(grain)
}

/// A segment stands for a run of frames.
pub open spec fn stands_for_run(
    frames: Seq<Option<GrainModel>>,
    rate: FrameRate,
    n: int,
    segment: SegmentModel,
) -> bool {
    exists|from: int, to: int| #[trigger]
        is_run(frames, n, segment.grain_params, from, to) && segment.start_time == frame_ts(
            from,
            rate,
        ) && segment.end_time == frame_ts(to, rate)
}

/// Every segment of the table of the first `n` frames stands for a run of them.
proof fn lemma_runs(frames: Seq<Option<GrainModel>>, rate: FrameRate, n: nat)
    requires
        n <= frames.len(),
        shown_in_turn(rate, frames.len()),
    ensures
        forall|k: int|
            0 <= k < table_of(frames, rate, n).len() ==> stands_for_run(
                frames,
                rate,
                n as int,
                #[trigger] table_of(frames, rate, n)[k],
            ),
    decreases n,
{
    if n > 0 {
        let m = (n - 1) as nat;
        lemma_runs(frames, rate, m);
        lemma_table(frames, rate, m);
        let before = table_of(frames, rate, m);
        let table = table_of(frames, rate, n);
        let start = frame_ts(n - 1, rate);
        let end = frame_ts(n as int, rate);
        assert(0 <= start <= u64::MAX && 0 <= end <= u64::MAX);
        let last = before.len() - 1;
        let goes_on = frames[n - 1] is Some && before.len() > 0 && before.last().end_time == start
            && before.last().grain_params == frames[n - 1]->0;
        assert forall|k: int| 0 <= k < table.len() implies stands_for_run(
            frames,
            rate,
            n as int,
            #[trigger] table[k],
        ) by {
            if k < before.len() {
                let g = before[k].grain_params;
                assert(stands_for_run(frames, rate, m as int, before[k]));
                let (from, to) = choose|from: int, to: int| #[trigger]
                    is_run(frames, m as int, g, from, to) && before[k].start_time == frame_ts(
                        from,
                        rate,
                    ) && before[k].end_time == frame_ts(to, rate);
                assert(to < m ==> frame_ts(to, rate) < start);
                if goes_on && k == last {
                    assert(to == m);
                    assert(is_run(frames, n as int, g, from, n as int));
                    assert(table[k].end_time == end && table[k].start_time == before[k].start_time);
                    assert(is_run(frames, n as int, table[k].grain_params, from, n as int));
                    assert(stands_for_run(frames, rate, n as int, table[k]));
                } else {
                    if to == m && frames[n - 1] == Some(g) {
                        assert(k < last);
                        assert(before[k].end_time <= before[last].start_time);
                        assert(before[last].start_time < before[last].end_time <= start);
                    }
                    assert(is_run(frames, n as int, g, from, to));
                    assert(table[k] == before[k]);
                    assert(stands_for_run(frames, rate, n as int, table[k]));
                }
            } else {
                let g = frames[n - 1]->0;
                if n >= 2 && frames[n - 2] == Some(g) {
                    assert(before.last().end_time == start && before.last().grain_params == g);
                }
                assert(is_run(frames, n as int, g, n - 1, n as int));
                assert(table[k].grain_params == g);
                assert(is_run(frames, n as int, table[k].grain_params, n - 1, n as int));
                assert(stands_for_run(frames, rate, n as int, table[k]));
            }
        }
    }
}

/// Law: every segment of a table begins where the first frame of a run of frames with its grain
/// is shown, and ends where the frame behind the run is shown; the last one ends at the end of
/// time. The frames next to a run do not have its grain.
pub proof fn law_segments_are_runs(frames: Seq<Option<GrainModel>>, rate: FrameRate, k: int)
    requires
        shown_in_turn(rate, frames.len()),
        0 <= k < grain_table(frames, rate).len(),
    ensures
        ({
            let table = grain_table(frames, rate);
            exists|from: int, to: int| #[trigger]
                is_run(frames, frames.len() as int, table[k].grain_params, from, to)
                    && table[k].start_time == frame_ts(from, rate) && table[k].end_time == if k
                    == table.len() - 1 {
                    i64::MAX as int
                } else {
                    frame_ts(to, rate)
                }
        }),
{
    let n = frames.len();
    lemma_runs(frames, rate, n);
    let before = table_of(frames, rate, n);
    let table = grain_table(frames, rate);
    assert(stands_for_run(frames, rate, n as int, before[k]));
    let (from, to) = choose|from: int, to: int| #[trigger]
        is_run(frames, n as int, before[k].grain_params, from, to) && before[k].start_time
            == frame_ts(from, rate) && before[k].end_time == frame_ts(to, rate);
    assert(is_run(frames, n as int, table[k].grain_params, from, to));
}

/// The last of the first `n` frames that has grain, or minus one.
pub open spec fn last_with_grain(frames: Seq<Option<GrainModel>>, n: nat) -> int
    decreases n,
{
    if n == 0 {
        -1
    } else if frames[n - 1] is Some {
        n - 1
    } else {
        last_with_grain(frames, (n - 1) as nat)
    }
}

/// A frame has grain, and the last one with grain in front of it has other grain or does not end
/// where the frame begins.
pub open spec fn begins_segment(
    frames: Seq<Option<GrainModel>>,
    rate: FrameRate,
    k: int,
) -> bool {
    let m = last_with_grain(frames, k as nat);
    frames[k] is Some && (m < 0 || frames[m] != frames[k] || frame_ts(m + 1, rate) != frame_ts(
        k,
        rate,
    ))
}

/// The number of the first `n` frames that begin a segment.
pub open spec fn segments_begun(
    frames: Seq<Option<GrainModel>>,
    rate: FrameRate,
    n: nat,
) -> nat
    decreases n,
{
    if n == 0 {
        0
    } else {
        segments_begun(frames, rate, (n - 1) as nat) + if begins_segment(frames, rate, n - 1) {
            1nat
        } else {
            0nat
        }
    }
}

/// The segments of the first `n` frames, and the one that the frame at `k` begins.
proof fn lemma_segments_begin(
    frames: Seq<Option<GrainModel>>,
    rate: FrameRate,
    n: nat,
    k: int,
)
    requires
        n <= frames.len(),
    ensures
        ({
            let table = table_of(frames, rate, n);
            let m = last_with_grain(frames, n);
            &&& -1 <= m < n
            &&& table.len() == segments_begun(frames, rate, n)
            &&& m < 0 <==> table.len() == 0
            &&& m >= 0 ==> frames[m] == Some(table.last().grain_params) && table.last().end_time
                == frame_ts(m + 1, rate)
            &&& 0 <= k < n && begins_segment(frames, rate, k) ==> {
                let c = segments_begun(frames, rate, k as nat) as int;
                &&& c < table.len()
                &&& table[c].start_time == frame_ts(k, rate)
                &&& frames[k] == Some(table[c].grain_params)
                &&& c > 0 ==> table[c - 1].end_time == frame_ts(
                    last_with_grain(frames, k as nat) + 1,
                    rate,
                )
            }
        }),
    decreases n,
{
    if n > 0 {
        let before = table_of(frames, rate, (n - 1) as nat);
        let table = table_of(frames, rate, n);
        lemma_segments_begin(frames, rate, (n - 1) as nat, k);
        let (start, end) = (frame_ts(n - 1, rate), frame_ts(n as int, rate));
        assert(0 <= start <= u64::MAX && 0 <= end <= u64::MAX);
        if let Some(grain) = frames[n - 1] {
            assert(table == extended(before, grain, start, end));
            if 0 <= k < n - 1 && begins_segment(frames, rate, k) {
                let c = segments_begun(frames, rate, k as nat) as int;
                assert(table[c].start_time == before[c].start_time);
                assert(table[c].grain_params == before[c].grain_params);
                if c > 0 {
                    assert(table[c - 1] == before[c - 1]);
                }
            }
        }
    }
}

/// Law: a segment begins at each frame with grain, unless the last one with grain in front of it
/// has the same grain and ends where the frame begins. It begins where the frame is shown, has its
/// grain, and the segment in front of it ends where the last frame with grain ends. The last
/// segment goes on to the end of time. This holds of any frame rate.
pub proof fn law_segments_begin(frames: Seq<Option<GrainModel>>, rate: FrameRate, k: int)
    requires
        0 <= k < frames.len(),
    ensures
        ({
            let table = grain_table(frames, rate);
            &&& table.len() == segments_begun(frames, rate, frames.len())
            &&& table.len() > 0 ==> table.last().end_time == 0x7fff_ffff_ffff_ffff
            &&& begins_segment(frames, rate, k) ==> {
                let c = segments_begun(frames, rate, k as nat) as int;
                &&& c < table.len()
                &&& table[c].start_time == frame_ts(k, rate)
                &&& frames[k] == Some(table[c].grain_params)
                &&& c > 0 ==> table[c - 1].end_time == frame_ts(
                    last_with_grain(frames, k as nat) + 1,
                    rate,
                )
            }
        }),
{
    lemma_segments_begin(frames, rate, frames.len(), k);
}

/// Law: specifications see the segments of a table and the grain of frames in their order.
pub proof fn law_table_seen(
    table: Seq<GrainTableSegment>,
    frames: Seq<Option<FilmGrainParams>>,
    i: int,
)
    ensures
        table_view(table).len() == table.len(),
        0 <= i < table.len() ==> table_view(table)[i] == table[i]@,
        frames_view(frames).len() == frames.len(),
        0 <= i < frames.len() ==> match (frames_view(frames)[i], frames[i]) {
            (Some(grain), Some(params)) => grain == params@,
            (None, None) => true,
            _ => false,
        },
{
}

} // verus!
