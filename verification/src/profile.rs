//! How often and how long the steps of a run take.
use vstd::prelude::*;

verus! {

/// A step of which the time is taken.
#[derive(Debug, Clone, Copy, PartialEq, Eq, Structural)]
pub enum MetricId {
    DiffFramePairsTotal,
    SourceGetFrame,
    SourceFilter,
    DenoisedGetFrame,
    ConsumerRecv,
    DifferDiffFrame,
    DifferFinish,
    OutputWrite,
    ReaderSendPacket,
    ReaderReceiveFrame,
    ReaderBuildFrame,
    ReaderCopyY,
    ReaderCopyU,
    ReaderCopyV,
}

/// The number of steps of which the time is taken.
pub const METRIC_COUNT: usize = 14;

impl MetricId {
    /// The place of a step among all of them.
    pub open spec fn place(self) -> int {
        match self {
            MetricId::DiffFramePairsTotal => 0,
            MetricId::SourceGetFrame => 1,
            MetricId::SourceFilter => 2,
            MetricId::DenoisedGetFrame => 3,
            MetricId::ConsumerRecv => 4,
            MetricId::DifferDiffFrame => 5,
            MetricId::DifferFinish => 6,
            MetricId::OutputWrite => 7,
            MetricId::ReaderSendPacket => 8,
            MetricId::ReaderReceiveFrame => 9,
            MetricId::ReaderBuildFrame => 10,
            MetricId::ReaderCopyY => 11,
            MetricId::ReaderCopyU => 12,
            MetricId::ReaderCopyV => 13,
        }
    }

    /// The place of a step among all of them.
    pub fn index(self) -> (r: usize)
        ensures
            r == self.place(),
            r < METRIC_COUNT,
    {
        match self {
            MetricId::DiffFramePairsTotal => 0,
            MetricId::SourceGetFrame => 1,
            MetricId::SourceFilter => 2,
            MetricId::DenoisedGetFrame => 3,
            MetricId::ConsumerRecv => 4,
            MetricId::DifferDiffFrame => 5,
            MetricId::DifferFinish => 6,
            MetricId::OutputWrite => 7,
            MetricId::ReaderSendPacket => 8,
            MetricId::ReaderReceiveFrame => 9,
            MetricId::ReaderBuildFrame => 10,
            MetricId::ReaderCopyY => 11,
            MetricId::ReaderCopyU => 12,
            MetricId::ReaderCopyV => 13,
        }
    }
}

/// The name under which a step is reported.
pub open spec fn label_text(place: int) -> Seq<char> {
    if place == 0 {
        "diff_frame_pairs_total"@
    } else if place == 1 {
        "source_get_frame"@
    } else if place == 2 {
        "source_filter"@
    } else if place == 3 {
        "denoised_get_frame"@
    } else if place == 4 {
        "consumer_recv"@
    } else if place == 5 {
        "differ_diff_frame"@
    } else if place == 6 {
        "differ_finish"@
    } else if place == 7 {
        "output_write"@
    } else if place == 8 {
        "reader_send_packet"@
    } else if place == 9 {
        "reader_receive_frame"@
    } else if place == 10 {
        "reader_build_frame"@
    } else if place == 11 {
        "reader_copy_y"@
    } else if place == 12 {
        "reader_copy_u"@
    } else {
        "reader_copy_v"@
    }
}

/// The name under which the step at `place` is reported.
pub fn label(place: usize) -> (r: &'static str)
    requires
        place < METRIC_COUNT,
    ensures
        r@ == label_text(place as int),
{
    match place {
        0 => "diff_frame_pairs_total",
        1 => "source_get_frame",
        2 => "source_filter",
        3 => "denoised_get_frame",
        4 => "consumer_recv",
        5 => "differ_diff_frame",
        6 => "differ_finish",
        7 => "output_write",
        8 => "reader_send_packet",
        9 => "reader_receive_frame",
        10 => "reader_build_frame",
        11 => "reader_copy_y",
        12 => "reader_copy_u",
        _ => "reader_copy_v",
    }
}

/// How long a step took in all, and how often it was taken.
#[derive(Debug, Clone, Copy, PartialEq, Eq, Structural)]
pub struct Metric {
    pub nanos: u64,
    pub count: u64,
}

impl Metric {
    /// A step that was not taken yet.
    pub fn new() -> (r: Self)
        ensures
            r == (Metric { nanos: 0, count: 0 }),
    {
        Metric { nanos: 0, count: 0 }
    }
}

/// The time of one step as it is counted: no more than 64 bits hold.
pub open spec fn counted_nanos(elapsed: u128) -> int {
    if elapsed <= u64::MAX {
        elapsed as int
    } else {
        u64::MAX as int
    }
}

/// A line of the report.
#[derive(Debug, Clone, Copy)]
pub struct ReportRow {
    pub label: &'static str,
    pub count: u64,
    pub nanos: u64,
}

/// A line of the report, as specifications see it.
#[verifier::ext_equal]
pub struct RowModel {
    pub label: Seq<char>,
    pub count: u64,
    pub nanos: u64,
}

impl View for ReportRow {
    type V = RowModel;

    open spec fn view(&self) -> RowModel {
        RowModel { label: self.label@, count: self.count, nanos: self.nanos }
    }
}

/// The lines for the first `n` steps: one for each that was taken, in the order of the steps.
pub open spec fn report_rows(metrics: Seq<Metric>, n: nat) -> Seq<RowModel>
    decreases n,
{
    if n == 0 {
        Seq::empty()
    } else {
        let rows = report_rows(metrics, (n - 1) as nat);
        let m = metrics[n - 1];
        if m.count == 0 {
            rows
        } else {
            rows.push(RowModel { label: label_text(n - 1), count: m.count, nanos: m.nanos })
        }
    }
}

/// The counts of all steps.
#[derive(Debug)]
pub struct Profile {
    pub metrics: Vec<Metric>,
}

impl Profile {
    /// There is a count for each step.
    pub open spec fn wf(&self) -> bool {
        self.metrics@.len() == METRIC_COUNT
    }

    /// Counts of a run in which nothing happened yet.
    pub fn new() -> (r: Self)
        ensures
            r.wf(),
            forall|i: int|
                0 <= i < METRIC_COUNT ==> r.metrics@[i] == (Metric { nanos: 0, count: 0 }),
    {
        let mut metrics: Vec<Metric> = Vec::new();
        while metrics.len() < METRIC_COUNT
            invariant
                metrics@.len() <= METRIC_COUNT,
                forall|i: int|
                    0 <= i < metrics@.len() ==> metrics@[i] == (Metric { nanos: 0, count: 0 }),
            decreases METRIC_COUNT - metrics@.len(),
        {
            metrics.push(Metric::new());
        }
        Profile { metrics }
    }

    /// Counts a step that took `elapsed` nanoseconds. The sums wrap around.
    pub fn record(&mut self, id: MetricId, elapsed: u128)
        requires
            old(self).wf(),
        ensures
            final(self).wf(),
            final(self).metrics@[id.place()].nanos == (old(self).metrics@[id.place()].nanos
                + counted_nanos(elapsed)) % 0x1_0000_0000_0000_0000,
            final(self).metrics@[id.place()].count == (old(self).metrics@[id.place()].count + 1)
                % 0x1_0000_0000_0000_0000,
            forall|i: int|
                0 <= i < METRIC_COUNT && i != id.place() ==> final(self).metrics@[i]
                    == old(self).metrics@[i],
    {
        let nanos: u64 = if elapsed <= u64::MAX as u128 {
            elapsed as u64
        } else {
            u64::MAX
        };
        let place: usize = id.index();
        let m: Metric = self.metrics[place];
        self.metrics.set(
            place,
            Metric { nanos: m.nanos.wrapping_add(nanos), count: m.count.wrapping_add(1) },
        );
    }
}

/// Runs a step of which the time is not taken.
pub fn time<T, F: FnOnce() -> T>(id: MetricId, f: F) -> (r: T)
    requires
        f.requires(()),
    ensures
        f.ensures((), r),
{
    f()
}

/// A step of a longer run that was taken, and how long it took.
#[derive(Debug, Clone, Copy, PartialEq, Eq, Structural)]
pub struct Lap {
    pub id: MetricId,
    pub nanos: u128,
}

/// A step was taken, and the time that it took is what went by between two readings of a clock.
pub open spec fn is_lap<F: Fn() -> u128>(clock: F, lap: Lap, id: MetricId) -> bool {
    &&& lap.id == id
    &&& exists|from: u128, to: u128|
        #![trigger clock.ensures((), from), clock.ensures((), to)]
        clock.ensures((), from) && clock.ensures((), to) && lap.nanos == if to > from {
            to - from
        } else {
            0
        }
}

/// Behind the laps that there were before, there is one for each of the steps, in order.
pub open spec fn laps_taken<F: Fn() -> u128>(
    clock: F,
    before: Seq<Lap>,
    after: Seq<Lap>,
    steps: Seq<MetricId>,
) -> bool {
    &&& after.len() == before.len() + steps.len()
    &&& forall|i: int| 0 <= i < before.len() ==> #[trigger] after[i] == before[i]
    &&& forall|i: int|
        before.len() <= i < after.len() ==> is_lap(
            clock,
            #[trigger] after[i],
            steps[i - before.len()],
        )
}

/// Notes that a step is over that began at `from`.
pub fn finish_lap<F: Fn() -> u128>(laps: &mut Vec<Lap>, clock: &F, from: u128, id: MetricId)
    requires
        clock.requires(()),
        clock.ensures((), from),
    ensures
        laps_taken(*clock, old(laps)@, final(laps)@, seq![id]),
{
    let to: u128 = clock();
    laps.push(Lap { id, nanos: to.saturating_sub(from) });
    assert(is_lap(*clock, laps@.last(), id));
}

/// Laps of two runs, one after the other.
pub proof fn lemma_laps_add<F: Fn() -> u128>(
    clock: F,
    a: Seq<Lap>,
    b: Seq<Lap>,
    c: Seq<Lap>,
    one: Seq<MetricId>,
    other: Seq<MetricId>,
)
    requires
        laps_taken(clock, a, b, one),
        laps_taken(clock, b, c, other),
    ensures
        laps_taken(clock, a, c, one + other),
{
    let steps = one + other;
    assert forall|i: int| a.len() <= i < c.len() implies is_lap(
        clock,
        #[trigger] c[i],
        steps[i - a.len()],
    ) by {
        if i < b.len() {
            assert(c[i] == b[i]);
        } else {
            assert(steps[i - a.len()] == other[i - b.len()]);
        }
    }
    assert forall|i: int| 0 <= i < a.len() implies #[trigger] c[i] == a[i] by {
        assert(c[i] == b[i]);
    }
}

/// The lines of the report, ready to be printed: one for each step that was taken.
pub fn print_report(profile: &Profile) -> (r: Vec<ReportRow>)
    requires
        profile.wf(),
    ensures
        r@.map_values(|row: ReportRow| row@) == report_rows(profile.metrics@, METRIC_COUNT as nat),
{
    let mut rows: Vec<ReportRow> = Vec::new();
    let mut i: usize = 0;
    assert(rows@.map_values(|row: ReportRow| row@) =~= report_rows(profile.metrics@, 0));
    while i < METRIC_COUNT
        invariant
            profile.wf(),
            i <= METRIC_COUNT,
            rows@.map_values(|row: ReportRow| row@) == report_rows(profile.metrics@, i as nat),
        decreases METRIC_COUNT - i,
    {
        let m: Metric = profile.metrics[i];
        let ghost before = rows@;
        if m.count != 0 {
            rows.push(ReportRow { label: label(i), count: m.count, nanos: m.nanos });
        }
        i = i + 1;
        assert(rows@.map_values(|row: ReportRow| row@) =~= report_rows(profile.metrics@, i as nat));
    }
    rows
}

/// Law: every step has a place of its own, and is reported under its own name.
pub proof fn law_steps_told_apart(id: MetricId, other: MetricId)
    ensures
        0 <= id.place() < 14,
        id.place() == other.place() <==> id == other,
        label_text(id.place()) == match id {
            MetricId::DiffFramePairsTotal => "diff_frame_pairs_total"@,
            MetricId::SourceGetFrame => "source_get_frame"@,
            MetricId::SourceFilter => "source_filter"@,
            MetricId::DenoisedGetFrame => "denoised_get_frame"@,
            MetricId::ConsumerRecv => "consumer_recv"@,
            MetricId::DifferDiffFrame => "differ_diff_frame"@,
            MetricId::DifferFinish => "differ_finish"@,
            MetricId::OutputWrite => "output_write"@,
            MetricId::ReaderSendPacket => "reader_send_packet"@,
            MetricId::ReaderReceiveFrame => "reader_receive_frame"@,
            MetricId::ReaderBuildFrame => "reader_build_frame"@,
            MetricId::ReaderCopyY => "reader_copy_y"@,
            MetricId::ReaderCopyU => "reader_copy_u"@,
            MetricId::ReaderCopyV => "reader_copy_v"@,
        },
{
}

/// Law: a step counts with the time that it took, or with the most that 64 bits hold if that is
/// less.
pub proof fn law_time_counted(elapsed: u128)
    ensures
        counted_nanos(elapsed) <= elapsed,
        counted_nanos(elapsed) <= 0xffff_ffff_ffff_ffff,
        counted_nanos(elapsed) == elapsed || counted_nanos(elapsed) == 0xffff_ffff_ffff_ffff,
{
}

/// The steps that were taken.
pub open spec fn steps_taken(metrics: Seq<Metric>) -> Seq<Metric> {
    metrics.filter(|m: Metric| m.count != 0)
}

/// Law: the report has a line for each step that was taken and no others, in the order of the
/// steps, with the count and the time of the step.
pub proof fn law_report_tells(metrics: Seq<Metric>, n: nat, i: int)
    requires
        n <= metrics.len(),
    ensures
        report_rows(metrics, n).len() == steps_taken(metrics.take(n as int)).len(),
        0 <= i < n && metrics[i].count != 0 ==> ({
            let k = steps_taken(metrics.take(i)).len() as int;
            let rows = report_rows(metrics, n);
            &&& k < rows.len()
            &&& rows[k].label == label_text(i)
            &&& rows[k].count == metrics[i].count
            &&& rows[k].nanos == metrics[i].nanos
        }),
    decreases n,
{
    reveal(Seq::filter);
    if n == 0 {
        assert(metrics.take(0) =~= Seq::empty());
    } else {
        let m = metrics.take(n as int);
        assert(m.drop_last() =~= metrics.take(n - 1));
        law_report_tells(metrics, (n - 1) as nat, i);
    }
}

/// Two readings of a clock are as far apart as `nanos` says; none if it does not go forward.
pub open spec fn went_by<F: Fn() -> u128>(clock: F, from: u128, to: u128, nanos: u128) -> bool {
    &&& clock.ensures((), from)
    &&& clock.ensures((), to)
    &&& from <= to ==> from + nanos == to
    &&& to <= from ==> nanos == 0
}

/// Law: where the time of steps is taken, the laps that there were before stay as they are, and one
/// more stands behind them for each step, in order, with what went by between two readings of the
/// clock.
pub proof fn law_laps_measured<F: Fn() -> u128>(
    clock: F,
    before: Seq<Lap>,
    after: Seq<Lap>,
    steps: Seq<MetricId>,
    i: int,
)
    requires
        laps_taken(clock, before, after, steps),
        0 <= i < steps.len(),
    ensures
        after.len() == before.len() + steps.len(),
        after.take(before.len() as int) == before,
        after[before.len() + i].id == steps[i],
        exists|from: u128, to: u128| #[trigger]
            went_by(clock, from, to, after[before.len() + i].nanos),
{
    assert(after.take(before.len() as int) =~= before);
    let lap = after[before.len() + i];
    assert(is_lap(clock, lap, steps[i]));
    let (from, to) = choose|from: u128, to: u128|
        #![trigger clock.ensures((), from), clock.ensures((), to)]
        clock.ensures((), from) && clock.ensures((), to) && lap.nanos == if to > from {
            to - from
        } else {
            0
        };
    assert(went_by(clock, from, to, lap.nanos));
}

/// Law: specifications see every part of a line of the report as it is.
pub proof fn law_row_seen(row: ReportRow)
    ensures
        row@.label == row.label@,
        row@.count == row.count,
        row@.nanos == row.nanos,
{
}

} // verus!
