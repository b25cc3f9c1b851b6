//! When each directory is measured again: often while it changes, seldom
//! while it does not.
use vstd::prelude::*;

use crate::app::{App, AppView, Moment};
use crate::file_path::{paths, FilePath};
use crate::path::same_path;
use crate::scan::{
    measurements_view, EntryView, Measurement, MeasurementView, Timestamp,
};

verus! {

/// How long until a directory is measured again that nothing is known of, in
/// nanoseconds.
pub const UNKNOWN_INTERVAL: u128 = 10_000_000_000;

/// How often such a directory is found unchanged before it is measured less.
pub const UNKNOWN_QUIET_LIMIT: u32 = 6;

/// How long until a directory is measured again that changed or is gone.
pub const ACTIVE_INTERVAL: u128 = 3_000_000_000;

/// How long until a directory is measured again that was quiet for a while.
pub const SEMI_INTERVAL: u128 = 30_000_000_000;

/// How often such a directory is found unchanged before it is measured least.
pub const SEMI_QUIET_LIMIT: u32 = 6;

/// How long until a directory is measured again that was quiet for long.
pub const DORMANT_INTERVAL: u128 = 60_000_000_000;

/// The age, in nanoseconds, from which on a directory counts as quiet for
/// long from the start: 30 days.
pub const STALE_AFTER: i128 = 2_592_000_000_000_000;

/// How often a directory is measured, with the number of times it was found
/// unchanged.
#[derive(Clone, Copy, Debug, PartialEq, Eq, Structural)]
pub enum Tier {
    Unknown(u32),
    Active,
    SemiDormant(u32),
    Dormant,
}

/// How long until a directory of a tier is measured again.
pub open spec fn interval_of(t: Tier) -> u128 {
    match t {
        Tier::Unknown(_) => UNKNOWN_INTERVAL,
        Tier::Active => ACTIVE_INTERVAL,
        Tier::SemiDormant(_) => SEMI_INTERVAL,
        Tier::Dormant => DORMANT_INTERVAL,
    }
}

/// The tier after a directory was found unchanged once more. An active one
/// stays active.
pub open spec fn relaxed(t: Tier) -> Tier {
    match t {
        Tier::Unknown(c) => if c + 1 >= UNKNOWN_QUIET_LIMIT {
            Tier::SemiDormant(0)
        } else {
            Tier::Unknown((c + 1) as u32)
        },
        Tier::Active => Tier::Active,
        Tier::SemiDormant(c) => if c + 1 >= SEMI_QUIET_LIMIT {
            Tier::Dormant
        } else {
            Tier::SemiDormant((c + 1) as u32)
        },
        Tier::Dormant => Tier::Dormant,
    }
}

impl Tier {
    /// How long until a directory of this tier is measured again.
    pub fn interval(self) -> (r: u128)
        ensures
            r == interval_of(self),
    {
        match self {
            Tier::Unknown(_) => UNKNOWN_INTERVAL,
            Tier::Active => ACTIVE_INTERVAL,
            Tier::SemiDormant(_) => SEMI_INTERVAL,
            Tier::Dormant => DORMANT_INTERVAL,
        }
    }

    /// The tier after a directory was found unchanged once more.
    pub fn relax(self) -> (r: Tier)
        ensures
            r == relaxed(self),
    {
        match self {
            Tier::Unknown(c) => if c >= UNKNOWN_QUIET_LIMIT - 1 {
                Tier::SemiDormant(0)
            } else {
                Tier::Unknown(c + 1)
            },
            Tier::Active => Tier::Active,
            Tier::SemiDormant(c) => if c >= SEMI_QUIET_LIMIT - 1 {
                Tier::Dormant
            } else {
                Tier::SemiDormant(c + 1)
            },
            Tier::Dormant => Tier::Dormant,
        }
    }
}

/// A directory that is measured again and again.
#[derive(Debug)]
pub struct PolledDir {
    pub target_dir: FilePath,
    pub tier: Tier,
    /// When it is measured next.
    pub next_due: Moment,
    /// What was measured last.
    pub last_size: Option<u64>,
    pub last_modified: Option<Timestamp>,
}

/// What a `PolledDir` says.
#[verifier::ext_equal]
pub struct PolledView {
    pub target_dir: Seq<u8>,
    pub tier: Tier,
    pub next_due: Moment,
    pub last_size: Option<u64>,
    pub last_modified: Option<Timestamp>,
}

impl View for PolledDir {
    type V = PolledView;

    open spec fn view(&self) -> PolledView {
        PolledView {
            target_dir: self.target_dir@,
            tier: self.tier,
            next_due: self.next_due,
            last_size: self.last_size,
            last_modified: self.last_modified,
        }
    }
}

/// What a list of such directories says.
pub open spec fn polled_view(v: Seq<PolledDir>) -> Seq<PolledView> {
    v.map_values(|t: PolledDir| t@)
}

/// Whether a modification time lies long enough before `wall`.
pub open spec fn stale(last_modified: Option<Timestamp>, wall: Timestamp) -> bool {
    last_modified matches Some(m) && wall - m >= STALE_AFTER
}

/// A directory to track, with what was measured of it.
#[verifier::ext_equal]
pub struct Baseline {
    pub target_dir: Seq<u8>,
    pub size: Option<u64>,
    pub last_modified: Option<Timestamp>,
}

/// What is measured of an entry, as a baseline.
pub open spec fn baseline_of(e: EntryView) -> Baseline {
    Baseline { target_dir: e.target_dir, size: e.size, last_modified: e.last_modified }
}

/// The directories to track: all rows, and the build cache, or else the place
/// where it would appear.
pub open spec fn baselines(app: AppView) -> Seq<Baseline> {
    let rows = app.entries.map_values(|e: EntryView| baseline_of(e));
    match (app.build_cache, app.build_cache_path) {
        (Some(c), _) => rows.push(
            Baseline {
                target_dir: c.project_path,
                size: c.size,
                last_modified: c.last_modified,
            },
        ),
        (None, Some(p)) => rows.push(Baseline { target_dir: p, size: None, last_modified: None }),
        (None, None) => rows,
    }
}

/// The tier that a directory starts in.
pub open spec fn first_tier(b: Baseline, wall: Timestamp) -> Tier {
    if stale(b.last_modified, wall) {
        Tier::Dormant
    } else {
        Tier::Unknown(0)
    }
}

/// When the `i`-th of `n` directories of a tier is measured first: they are
/// spread over one interval, in whole milliseconds.
pub open spec fn first_due(tier: Tier, i: int, n: int, now: Moment) -> Moment {
    (now + (i + 1) * (interval_of(tier) / 1_000_000) / n * 1_000_000) as u128
}

/// How the `i`-th of `n` directories is followed from the start.
pub open spec fn fresh(b: Baseline, i: int, n: int, now: Moment, wall: Timestamp) -> PolledView {
    PolledView {
        target_dir: b.target_dir,
        tier: first_tier(b, wall),
        next_due: first_due(first_tier(b, wall), i, n, now),
        last_size: b.size,
        last_modified: b.last_modified,
    }
}

/// The latest moment from which intervals can be counted.
pub const LAST_MOMENT: u128 = 0xffff_ffff_ffff_ffff_ffff_ff00_0000_0000;

/// How a directory is followed after it was measured. One that is gone is
/// measured often, and compared with what it was before once it is back. One
/// that changed is measured often. One that did not is measured less often.
pub open spec fn after_measuring(t: PolledView, m: MeasurementView, now: Moment) -> PolledView {
    let changed = Some(m.size) != t.last_size || m.last_modified != t.last_modified;
    let tier = if m.last_modified is None || changed {
        Tier::Active
    } else {
        relaxed(t.tier)
    };
    PolledView {
        tier,
        next_due: (now + interval_of(tier)) as u128,
        last_size: if m.last_modified is Some {
            Some(m.size)
        } else {
            t.last_size
        },
        last_modified: if m.last_modified is Some {
            m.last_modified
        } else {
            t.last_modified
        },
        ..t
    }
}

/// The index of the first directory with the given path, or the
/// length of `s` if there is none.
pub open spec fn polled_index(s: Seq<PolledView>, dir: Seq<u8>) -> int
    decreases s.len(),
{
    if s.len() == 0 || same_path(s[0].target_dir, dir) {
        0
    } else {
        1 + polled_index(s.skip(1), dir)
    }
}

/// What one measurement changes: the directory that it is about.
pub open spec fn track(s: Seq<PolledView>, m: MeasurementView, now: Moment) -> Seq<PolledView> {
    let k = polled_index(s, m.target_dir);
    if k < s.len() {
        s.update(k, after_measuring(s[k], m, now))
    } else {
        s
    }
}

/// What a list of measurements changes, one after the other.
pub open spec fn track_all(
    s: Seq<PolledView>,
    ms: Seq<MeasurementView>,
    now: Moment,
) -> Seq<PolledView>
    decreases ms.len(),
{
    if ms.len() == 0 {
        s
    } else {
        track(track_all(s, ms.drop_last(), now), ms.last(), now)
    }
}

/// The directories that are due, in order.
pub open spec fn due(s: Seq<PolledView>, now: Moment) -> Seq<Seq<u8>>
    decreases s.len(),
{
    if s.len() == 0 {
        Seq::empty()
    } else if s.last().next_due <= now {
        due(s.drop_last(), now).push(s.last().target_dir)
    } else {
        due(s.drop_last(), now)
    }
}

/// What `polled_index` says of the items around it.
proof fn lemma_polled_index(s: Seq<PolledView>, dir: Seq<u8>)
    ensures
        0 <= polled_index(s, dir) <= s.len(),
        forall|i: int|
            0 <= i < polled_index(s, dir) ==> !same_path(#[trigger] s[i].target_dir, dir),
        polled_index(s, dir) < s.len() ==> same_path(s[polled_index(s, dir)].target_dir, dir),
    decreases s.len(),
{
    if s.len() > 0 && !same_path(s[0].target_dir, dir) {
        lemma_polled_index(s.skip(1), dir);
        assert forall|i: int| 0 <= i < polled_index(s, dir) implies !same_path(
            #[trigger] s[i].target_dir,
            dir,
        ) by {
            if i > 0 {
                assert(s.skip(1)[i - 1] == s[i]);
            }
        }
    }
}

/// `polled_index` is the only index that fits that description.
proof fn lemma_polled_index_is(s: Seq<PolledView>, dir: Seq<u8>, k: int)
    requires
        0 <= k <= s.len(),
        forall|i: int| 0 <= i < k ==> !same_path(#[trigger] s[i].target_dir, dir),
        k < s.len() ==> same_path(s[k].target_dir, dir),
    ensures
        polled_index(s, dir) == k,
{
    lemma_polled_index(s, dir);
    let p = polled_index(s, dir);
    if p < k {
        assert(!same_path(s[p].target_dir, dir));
    } else if k < p {
        assert(!same_path(s[k].target_dir, dir));
    }
}

/// Decides what is measured when, and whether a batch is being measured.
#[derive(Debug)]
pub struct Poller {
    pub dirs: Vec<PolledDir>,
    /// Whether a batch of measurements is under way.
    pub in_flight: bool,
}

/// What a `Poller` says.
#[verifier::ext_equal]
pub struct PollerView {
    pub dirs: Seq<PolledView>,
    pub in_flight: bool,
}

impl View for Poller {
    type V = PollerView;

    open spec fn view(&self) -> PollerView {
        PollerView { dirs: polled_view(self.dirs@), in_flight: self.in_flight }
    }
}

impl PollerView {
    /// The poller after a scan.
    pub open spec fn reset(app: AppView, now: Moment, wall: Timestamp) -> PollerView {
        let bases = baselines(app);
        let n: int = if bases.len() == 0 {
            1
        } else {
            bases.len() as int
        };
        PollerView {
            dirs: bases.map(|i: int, b: Baseline| fresh(b, i, n, now, wall)),
            in_flight: false,
        }
    }

    /// The poller after a batch of measurements.
    pub open spec fn apply(self, ms: Seq<MeasurementView>, now: Moment) -> PollerView {
        PollerView { dirs: track_all(self.dirs, ms, now), ..self }
    }

    /// The poller after a batch of measurements that was under way.
    pub open spec fn receive(self, ms: Seq<MeasurementView>, now: Moment) -> PollerView {
        PollerView { in_flight: false, ..self.apply(ms, now) }
    }

    /// The poller after several batches.
    pub open spec fn receive_all(
        self,
        batches: Seq<Seq<MeasurementView>>,
        now: Moment,
    ) -> PollerView
        decreases batches.len(),
    {
        if batches.len() == 0 {
            self
        } else {
            self.receive_all(batches.drop_last(), now).receive(batches.last(), now)
        }
    }

    /// The directories to measure now: those that are due, unless a batch is
    /// under way.
    pub open spec fn batch(self, now: Moment) -> Seq<Seq<u8>> {
        if self.in_flight {
            Seq::empty()
        } else {
            due(self.dirs, now)
        }
    }

    /// The poller after the next batch was started, if there is one.
    pub open spec fn start(self, now: Moment) -> PollerView {
        PollerView { in_flight: self.in_flight || due(self.dirs, now).len() > 0, ..self }
    }
}

/// The state of the table after several batches of measurements.
pub open spec fn apply_batches(app: AppView, batches: Seq<Seq<MeasurementView>>) -> AppView
    decreases batches.len(),
{
    if batches.len() == 0 {
        app
    } else {
        apply_batches(app, batches.drop_last()).apply_measurements(batches.last())
    }
}

/// What a list of batches says.
pub open spec fn batches_view(v: Seq<Vec<Measurement>>) -> Seq<Seq<MeasurementView>> {
    v.map_values(|b: Vec<Measurement>| measurements_view(b@))
}

impl Poller {
    /// A poller that tracks nothing.
    pub fn new() -> (r: Poller)
        ensures
            r@ == (PollerView { dirs: Seq::empty(), in_flight: false }),
    {
        let r = Poller { dirs: Vec::new(), in_flight: false };
        assert(r@.dirs =~= Seq::<PolledView>::empty());
        r
    }

    /// How the `i`-th of `n` directories is followed from the start.
    fn track_fresh(
        target_dir: &FilePath,
        size: Option<u64>,
        last_modified: Option<Timestamp>,
        i: usize,
        n: usize,
        now: Moment,
        wall: Timestamp,
    ) -> (r: PolledDir)
        requires
            i < n,
            now <= LAST_MOMENT,
        ensures
            r@ == fresh(
                Baseline { target_dir: target_dir@, size, last_modified },
                i as int,
                n as int,
                now,
                wall,
            ),
    {
        let is_stale: bool = match last_modified {
            Some(m) => m <= i128::MAX - STALE_AFTER && m + STALE_AFTER <= wall,
            None => false,
        };
        let tier = if is_stale {
            Tier::Dormant
        } else {
            Tier::Unknown(0)
        };
        let interval_ms: u128 = tier.interval() / 1_000_000;
        assert(interval_ms <= 60_000);
        assert((i + 1) * interval_ms <= 0x1_0000_0000_0000_0000 * 60_000) by (nonlinear_arith)
            requires
                0 <= i < 0x1_0000_0000_0000_0000,
                0 <= interval_ms <= 60_000,
        ;
        let scaled: u128 = (i as u128 + 1) * interval_ms;
        assert(0 <= scaled as int / n as int <= interval_ms) by (nonlinear_arith)
            requires
                scaled == (i + 1) * interval_ms,
                i + 1 <= n,
                n > 0,
                interval_ms >= 0,
        ;
        let delay: u128 = scaled / (n as u128) * 1_000_000;
        PolledDir {
            target_dir: target_dir.clone(),
            tier,
            next_due: now + delay,
            last_size: size,
            last_modified,
        }
    }

    /// Tracks what a scan found, from now on.
    pub fn reset(&mut self, app: &App, now: Moment, wall: Timestamp)
        requires
            now <= LAST_MOMENT,
            app.entries@.len() < usize::MAX,
        ensures
            final(self)@ == PollerView::reset(app@, now, wall),
    {
        let ghost bases = baselines(app@);
        let rows: usize = app.entries.len();
        let extra: bool = app.build_cache.is_some() || app.build_cache_path.is_some();
        let count: usize = if extra {
            rows + 1
        } else {
            rows
        };
        let n: usize = if count == 0 {
            1
        } else {
            count
        };
        assert(bases.len() == count);
        let mut made: Vec<PolledDir> = Vec::new();
        for i in 0..rows
            invariant
                rows == app.entries@.len(),
                rows <= count <= n,
                now <= LAST_MOMENT,
                bases == baselines(app@),
                bases.len() == count,
                polled_view(made@) == bases.take(i as int).map(
                    |j: int, b: Baseline| fresh(b, j, n as int, now, wall),
                ),
        {
            let ghost before = made@;
            let e = &app.entries[i];
            assert(bases[i as int] == baseline_of(app@.entries[i as int]));
            assert(app@.entries[i as int] == e@);
            made.push(
                Poller::track_fresh(&e.target_dir, e.size, e.last_modified, i, n, now, wall),
            );
            assert(polled_view(made@) =~= polled_view(before).push(
                fresh(bases[i as int], i as int, n as int, now, wall),
            ));
            assert(polled_view(made@) =~= bases.take(i + 1).map(
                |j: int, b: Baseline| fresh(b, j, n as int, now, wall),
            ));
        }
        let ghost before = made@;
        match (&app.build_cache, &app.build_cache_path) {
            (Some(c), _) => {
                assert(bases[rows as int] == (Baseline {
                    target_dir: c@.project_path,
                    size: c.size,
                    last_modified: c.last_modified,
                }));
                made.push(
                    Poller::track_fresh(
                        &c.project_path,
                        c.size,
                        c.last_modified,
                        rows,
                        n,
                        now,
                        wall,
                    ),
                );
            },
            (None, Some(p)) => {
                assert(bases[rows as int] == (Baseline {
                    target_dir: p@,
                    size: None,
                    last_modified: None,
                }));
                made.push(Poller::track_fresh(p, None, None, rows, n, now, wall));
            },
            (None, None) => {},
        }
        proof {
            let full = |j: int, b: Baseline| fresh(b, j, n as int, now, wall);
            if extra {
                assert(polled_view(made@) =~= polled_view(before).push(
                    fresh(bases[rows as int], rows as int, n as int, now, wall),
                ));
                assert(bases.take(rows as int).push(bases[rows as int]) =~= bases);
            } else {
                assert(bases.take(rows as int) =~= bases);
            }
            assert(polled_view(made@) =~= bases.map(full));
        }
        self.dirs = made;
        self.in_flight = false;
    }

    /// The directories that are due, in order.
    pub fn due_targets(&self, now: Moment) -> (r: Vec<FilePath>)
        ensures
            paths(r@) == due(self@.dirs, now),
    {
        let ghost all = self@.dirs;
        let mut r: Vec<FilePath> = Vec::new();
        assert(all.take(0) =~= Seq::<PolledView>::empty());
        for i in 0..self.dirs.len()
            invariant
                all == polled_view(self.dirs@),
                paths(r@) == due(all.take(i as int), now),
        {
            let ghost before = r@;
            assert(all.take(i + 1).drop_last() =~= all.take(i as int));
            assert(all.take(i + 1).last() == self.dirs@[i as int]@);
            if self.dirs[i].next_due <= now {
                r.push(self.dirs[i].target_dir.clone());
                assert(paths(r@) =~= paths(before).push(all[i as int].target_dir));
            }
        }
        assert(all.take(all.len() as int) =~= all);
        r
    }

    /// Takes over one measurement.
    fn track(&mut self, m: &Measurement, now: Moment)
        requires
            now <= LAST_MOMENT,
        ensures
            final(self)@ == (PollerView {
                dirs: track(old(self)@.dirs, m@, now),
                ..old(self)@
            }),
    {
        let ghost start = self@.dirs;
        let mut k: usize = 0;
        while k < self.dirs.len() && !self.dirs[k].target_dir.same(&m.target_dir)
            invariant
                start == polled_view(self.dirs@),
                self@ == old(self)@,
                k <= self.dirs@.len(),
                forall|i: int| 0 <= i < k ==> !same_path(#[trigger] start[i].target_dir, m@.target_dir),
            decreases self.dirs@.len() - k,
        {
            assert(start[k as int] == self.dirs@[k as int]@);
            k += 1;
        }
        proof {
            if k < self.dirs@.len() {
                assert(start[k as int] == self.dirs@[k as int]@);
            }
            lemma_polled_index_is(start, m@.target_dir, k as int);
        }
        if k == self.dirs.len() {
            return;
        }
        let gone: bool = m.last_modified.is_none();
        let same_size: bool = match self.dirs[k].last_size {
            Some(s) => s == m.size,
            None => false,
        };
        let same_time: bool = match (m.last_modified, self.dirs[k].last_modified) {
            (Some(a), Some(b)) => a == b,
            (None, None) => true,
            _ => false,
        };
        let tier = if gone || !same_size || !same_time {
            Tier::Active
        } else {
            self.dirs[k].tier.relax()
        };
        self.dirs[k].tier = tier;
        self.dirs[k].next_due = now + tier.interval();
        if !gone {
            self.dirs[k].last_size = Some(m.size);
            self.dirs[k].last_modified = m.last_modified;
        }
        assert(polled_view(self.dirs@) =~= start.update(
            k as int,
            after_measuring(start[k as int], m@, now),
        ));
    }

    /// Takes over a batch of measurements, here and in the table.
    pub fn apply(&mut self, measurements: &Vec<Measurement>, app: &mut App, now: Moment)
        requires
            now <= LAST_MOMENT,
        ensures
            final(self)@ == old(self)@.apply(measurements_view(measurements@), now),
            final(app)@ == old(app)@.apply_measurements(measurements_view(measurements@)),
    {
        app.apply_measurements(measurements.as_slice());
        let ghost start = self@;
        let ghost all = measurements_view(measurements@);
        assert(all.take(0) =~= Seq::<MeasurementView>::empty());
        for i in 0..measurements.len()
            invariant
                now <= LAST_MOMENT,
                all == measurements_view(measurements@),
                self@ == (PollerView {
                    dirs: track_all(start.dirs, all.take(i as int), now),
                    ..start
                }),
        {
            assert(all.take(i + 1).drop_last() =~= all.take(i as int));
            assert(all.take(i + 1).last() == measurements@[i as int]@);
            self.track(&measurements[i], now);
        }
        assert(all.take(all.len() as int) =~= all);
    }

    /// Takes over the batches that have arrived, and returns the directories
    /// to measure next; there are none while a batch is under way.
    pub fn poll(&mut self, app: &mut App, arrived: &Vec<Vec<Measurement>>, now: Moment) -> (r: Vec<
        FilePath,
    >)
        requires
            now <= LAST_MOMENT,
        ensures
            ({
                let p = old(self)@.receive_all(batches_view(arrived@), now);
                &&& final(self)@ == p.start(now)
                &&& paths(r@) == p.batch(now)
            }),
            final(app)@ == apply_batches(old(app)@, batches_view(arrived@)),
    {
        let ghost start = self@;
        let ghost start_app = app@;
        let ghost all = batches_view(arrived@);
        assert(all.take(0) =~= Seq::<Seq<MeasurementView>>::empty());
        for i in 0..arrived.len()
            invariant
                now <= LAST_MOMENT,
                all == batches_view(arrived@),
                self@ == start.receive_all(all.take(i as int), now),
                app@ == apply_batches(start_app, all.take(i as int)),
        {
            assert(all.take(i + 1).drop_last() =~= all.take(i as int));
            assert(all.take(i + 1).last() == measurements_view(arrived@[i as int]@));
            self.apply(&arrived[i], app, now);
            self.in_flight = false;
        }
        assert(all.take(all.len() as int) =~= all);
        if self.in_flight {
            let none: Vec<FilePath> = Vec::new();
            assert(paths(none@) =~= Seq::<Seq<u8>>::empty());
            return none;
        }
        let ready = self.due_targets(now);
        if ready.len() > 0 {
            self.in_flight = true;
        }
        ready
    }
}

impl Default for Poller {
    fn default() -> (r: Poller)
        ensures
            r@ == (PollerView { dirs: Seq::empty(), in_flight: false }),
    {
        Poller::new()
    }
}

/// The tier after `n` measurements that found no change.
pub open spec fn quiet(t: Tier, n: nat) -> Tier
    decreases n,
{
    if n == 0 {
        t
    } else {
        relaxed(quiet(t, (n - 1) as nat))
    }
}

/// Law: a directory that nothing is known of relaxes after six quiet
/// measurements, and again after six more; it then stays where it is.
pub proof fn law_quiet_relaxes(n: nat)
    ensures
        n < 6 ==> quiet(Tier::Unknown(0), n) == Tier::Unknown(n as u32),
        6 <= n < 12 ==> quiet(Tier::Unknown(0), n) == Tier::SemiDormant((n - 6) as u32),
        12 <= n ==> quiet(Tier::Unknown(0), n) == Tier::Dormant,
    decreases n,
{
    if n > 0 {
        law_quiet_relaxes((n - 1) as nat);
    }
}

/// Law: an active directory stays active, whatever is measured of it.
pub proof fn law_active_stays(t: PolledView, m: MeasurementView, now: Moment)
    requires
        t.tier == Tier::Active,
    ensures
        after_measuring(t, m, now).tier == Tier::Active,
{
}

/// Law: a change makes a directory active from any tier, is the new baseline,
/// and the directory is due again one short interval later.
pub proof fn law_change_wakes(t: PolledView, m: MeasurementView, now: Moment)
    requires
        m.last_modified is Some,
        Some(m.size) != t.last_size || m.last_modified != t.last_modified,
        now <= LAST_MOMENT,
    ensures
        after_measuring(t, m, now).tier == Tier::Active,
        after_measuring(t, m, now).last_size == Some(m.size),
        after_measuring(t, m, now).last_modified == m.last_modified,
        after_measuring(t, m, now).next_due == now + ACTIVE_INTERVAL,
{
}

/// Law: a directory that is gone is active and keeps its baseline, so that
/// the same measurement as before it went finds no change.
pub proof fn law_gone_keeps_baseline(t: PolledView, m: MeasurementView, now: Moment)
    requires
        m.last_modified is None,
        now <= LAST_MOMENT,
    ensures
        after_measuring(t, m, now).tier == Tier::Active,
        after_measuring(t, m, now).last_size == t.last_size,
        after_measuring(t, m, now).last_modified == t.last_modified,
        after_measuring(t, m, now).next_due == now + ACTIVE_INTERVAL,
{
}

/// Law: a measurement that finds no change relaxes the tier and keeps the
/// baseline.
pub proof fn law_no_change(t: PolledView, m: MeasurementView, now: Moment)
    requires
        m.last_modified is Some,
        t.last_size == Some(m.size),
        t.last_modified == m.last_modified,
    ensures
        after_measuring(t, m, now).tier == relaxed(t.tier),
        after_measuring(t, m, now).last_size == t.last_size,
        after_measuring(t, m, now).last_modified == t.last_modified,
{
}

/// Law: a directory is due from its moment on.
pub proof fn law_due(s: Seq<PolledView>, now: Moment, i: int)
    requires
        0 <= i < s.len(),
        s[i].next_due <= now,
    ensures
        due(s, now).contains(s[i].target_dir),
    decreases s.len(),
{
    let d = s.drop_last();
    if i < d.len() {
        law_due(d, now, i);
        let q = choose|q: int| 0 <= q < due(d, now).len() && due(d, now)[q] == d[i].target_dir;
        assert(due(s, now)[q] == s[i].target_dir);
    } else {
        assert(due(s, now)[due(d, now).len() as int] == s[i].target_dir);
    }
}

/// Law: no directory is due before its moment.
pub proof fn law_not_due(s: Seq<PolledView>, now: Moment, q: int)
    requires
        0 <= q < due(s, now).len(),
    ensures
        exists|i: int|
            0 <= i < s.len() && (#[trigger] s[i]).next_due <= now && s[i].target_dir == due(
                s,
                now,
            )[q],
    decreases s.len(),
{
    let d = s.drop_last();
    if q < due(d, now).len() {
        law_not_due(d, now, q);
        let i = choose|i: int|
            0 <= i < d.len() && (#[trigger] d[i]).next_due <= now && d[i].target_dir == due(
                d,
                now,
            )[q];
        assert(s[i] == d[i]);
    } else {
        assert(s[s.len() - 1].next_due <= now);
    }
}

/// Law: after a scan every directory is first due within one interval of its
/// tier. While there are at most ten thousand, none is due at once.
pub proof fn law_first_polls_spread(app: AppView, now: Moment, wall: Timestamp, i: int)
    requires
        now <= LAST_MOMENT,
        0 <= i < PollerView::reset(app, now, wall).dirs.len(),
    ensures
        ({
            let dirs = PollerView::reset(app, now, wall).dirs;
            &&& dirs[i].next_due <= now + interval_of(dirs[i].tier)
            &&& dirs.len() <= 10_000 ==> now < dirs[i].next_due
        }),
{
    let bases = baselines(app);
    let n = bases.len() as int;
    let t = first_tier(bases[i], wall);
    let ms = interval_of(t) as int / 1_000_000;
    let x = (i + 1) * ms;
    assert(0 <= x / n <= ms) by (nonlinear_arith)
        requires
            x == (i + 1) * ms,
            0 <= i,
            i + 1 <= n,
            ms >= 0,
    ;
    if n <= 10_000 {
        assert(x / n >= 1) by (nonlinear_arith)
            requires
                x == (i + 1) * ms,
                0 <= i,
                0 < n <= 10_000,
                ms >= 10_000,
        ;
    }
}

/// Law: a fresh scan starts every directory anew, with what the scan measured
/// as its baseline; old ones start at the slowest tier.
pub proof fn law_reset_baselines(app: AppView, now: Moment, wall: Timestamp, i: int)
    requires
        0 <= i < app.entries.len(),
    ensures
        ({
            let dirs = PollerView::reset(app, now, wall).dirs;
            let e = app.entries[i];
            &&& dirs[i].target_dir == e.target_dir
            &&& dirs[i].last_size == e.size
            &&& dirs[i].last_modified == e.last_modified
            &&& dirs[i].tier == if stale(e.last_modified, wall) {
                Tier::Dormant
            } else {
                Tier::Unknown(0)
            }
        }),
{
}

/// Law: while a batch is under way and none arrives, nothing is started and
/// nothing changes.
pub proof fn law_one_batch_at_a_time(p: PollerView, now: Moment)
    requires
        p.in_flight,
    ensures
        p.receive_all(Seq::empty(), now).batch(now).len() == 0,
        p.receive_all(Seq::empty(), now).start(now) == p,
{
}

/// Law: measurements of directories that are not followed change nothing.
pub proof fn law_unknown_not_followed(s: Seq<PolledView>, ms: Seq<MeasurementView>, now: Moment)
    requires
        forall|i: int|
            0 <= i < ms.len() ==> polled_index(s, (#[trigger] ms[i]).target_dir) == s.len(),
    ensures
        track_all(s, ms, now) == s,
    decreases ms.len(),
{
    if ms.len() > 0 {
        let d = ms.drop_last();
        assert forall|i: int| 0 <= i < d.len() implies polled_index(
            s,
            (#[trigger] d[i]).target_dir,
        ) == s.len() by {
            assert(d[i] == ms[i]);
        }
        law_unknown_not_followed(s, d, now);
        assert(ms.last() == ms[ms.len() - 1]);
    }
}

/// How long until a directory is measured again, in seconds: ten while nothing is
/// known of it, three while it changes, thirty after a while without a change, and
/// sixty after a long one.
pub open spec fn seconds_between(t: Tier) -> int {
    match t {
        Tier::Unknown(_) => 10,
        Tier::Active => 3,
        Tier::SemiDormant(_) => 30,
        Tier::Dormant => 60,
    }
}

/// Law: after every measurement, whether the directory changed, did not change or
/// is gone, it is due again exactly one interval of its new tier later, and it is
/// still the same directory.
pub proof fn law_due_again(t: PolledView, m: MeasurementView, now: Moment)
    requires
        now <= LAST_MOMENT,
    ensures
        ({
            let w = after_measuring(t, m, now);
            &&& w.target_dir == t.target_dir
            &&& w.next_due == now + seconds_between(w.tier) * 1_000_000_000
            &&& w.tier is Unknown ==> w.next_due == now + 10_000_000_000
            &&& w.tier is Active ==> w.next_due == now + 3_000_000_000
            &&& w.tier is SemiDormant ==> w.next_due == now + 30_000_000_000
            &&& w.tier is Dormant ==> w.next_due == now + 60_000_000_000
        }),
{
}

/// Law: a change, or that the directory is gone, makes it active. Without a change
/// an active one stays active, the sixth time in a row an unknown one becomes
/// semi-dormant and a semi-dormant one dormant, and a dormant one stays so.
pub proof fn law_tiers(t: PolledView, m: MeasurementView, now: Moment)
    ensures
        ({
            let tier = after_measuring(t, m, now).tier;
            let changed = m.last_modified is None || t.last_size != Some(m.size)
                || t.last_modified != m.last_modified;
            &&& changed ==> tier == Tier::Active
            &&& !changed && t.tier == Tier::Active ==> tier == Tier::Active
            &&& !changed && t.tier == Tier::Dormant ==> tier == Tier::Dormant
            &&& !changed ==> (t.tier matches Tier::Unknown(c) ==> tier == if c < 5 {
                Tier::Unknown((c + 1) as u32)
            } else {
                Tier::SemiDormant(0)
            })
            &&& !changed ==> (t.tier matches Tier::SemiDormant(c) ==> tier == if c < 5 {
                Tier::SemiDormant((c + 1) as u32)
            } else {
                Tier::Dormant
            })
        }),
{
}

/// Law: a measurement counts for the first directory that is followed under its
/// path, and for no other.
pub proof fn law_track_touches_one(s: Seq<PolledView>, m: MeasurementView, now: Moment, k: int)
    requires
        0 <= k < s.len(),
        same_path(s[k].target_dir, m.target_dir),
        forall|i: int| 0 <= i < k ==> !same_path(#[trigger] s[i].target_dir, m.target_dir),
    ensures
        track(s, m, now).len() == s.len(),
        forall|i: int| 0 <= i < s.len() && i != k ==> #[trigger] track(s, m, now)[i] == s[i],
        track(s, m, now)[k].target_dir == s[k].target_dir,
        m.last_modified is Some ==> track(s, m, now)[k].last_size == Some(m.size)
            && track(s, m, now)[k].last_modified == m.last_modified,
        m.last_modified is None ==> track(s, m, now)[k].last_size == s[k].last_size
            && track(s, m, now)[k].last_modified == s[k].last_modified,
        now <= LAST_MOMENT ==> track(s, m, now)[k].next_due == now + seconds_between(
            track(s, m, now)[k].tier,
        ) * 1_000_000_000,
{
    lemma_polled_index_is(s, m.target_dir, k);
}

/// Law: a directory that was measured is due again: not in the next three seconds,
/// but after at most a minute, and after ten seconds if nothing is known of it.
pub proof fn law_measured_again(
    s: Seq<PolledView>,
    m: MeasurementView,
    now: Moment,
    later: Moment,
    k: int,
)
    requires
        now <= LAST_MOMENT,
        0 <= k < s.len(),
        same_path(s[k].target_dir, m.target_dir),
        forall|i: int| 0 <= i < k ==> !same_path(#[trigger] s[i].target_dir, m.target_dir),
    ensures
        later >= now + 60_000_000_000 ==> due(track(s, m, now), later).contains(s[k].target_dir),
        later >= now + 10_000_000_000 && track(s, m, now)[k].tier is Unknown ==> due(
            track(s, m, now),
            later,
        ).contains(s[k].target_dir),
        later >= now + 3_000_000_000 && track(s, m, now)[k].tier is Active ==> due(
            track(s, m, now),
            later,
        ).contains(s[k].target_dir),
        later < now + 3_000_000_000 ==> track(s, m, now)[k].next_due > later,
{
    law_track_touches_one(s, m, now, k);
    let w = track(s, m, now);
    assert(w.len() == s.len());
    if w[k].next_due <= later {
        law_due(w, later, k);
        assert(w[k].target_dir == s[k].target_dir);
    }
}

/// Law: as many directories are due as have their moment behind them, in order.
pub proof fn law_due_in_order(s: Seq<PolledView>, t: PolledView, now: Moment)
    ensures
        due(Seq::<PolledView>::empty(), now).len() == 0,
        t.next_due <= now ==> due(s.push(t), now) == due(s, now).push(t.target_dir),
        t.next_due > now ==> due(s.push(t), now) == due(s, now),
{
    assert(s.push(t).drop_last() =~= s);
}

/// Law: a scan makes the poller follow every row and, behind them, the build cache
/// or the place where it would appear, and nothing else; no batch is under way.
pub proof fn law_reset_follows_all(app: AppView, now: Moment, wall: Timestamp)
    ensures
        ({
            let p = PollerView::reset(app, now, wall);
            let n = app.entries.len() as int;
            &&& !p.in_flight
            &&& p.dirs.len() == n + if app.build_cache is Some || app.build_cache_path is Some {
                1int
            } else {
                0
            }
            &&& forall|i: int|
                0 <= i < n ==> (#[trigger] p.dirs[i]).target_dir == app.entries[i].target_dir
                    && p.dirs[i].last_size == app.entries[i].size && p.dirs[i].last_modified
                    == app.entries[i].last_modified
            &&& app.build_cache matches Some(c) ==> p.dirs[n].target_dir == c.project_path
                && p.dirs[n].last_size == c.size && p.dirs[n].last_modified == c.last_modified
            &&& (app.build_cache is None && app.build_cache_path is Some) ==> p.dirs[n].target_dir
                == app.build_cache_path->0 && p.dirs[n].last_size is None
                && p.dirs[n].last_modified is None
        }),
{
}

/// Law: after a scan a directory that was not modified for thirty days starts at
/// the slowest tier, any other at the unknown one, and the `i`-th of `n` is due
/// after as many `n`-ths of its interval, in whole milliseconds.
pub proof fn law_reset_schedule(app: AppView, now: Moment, wall: Timestamp, i: int)
    requires
        now <= LAST_MOMENT,
        0 <= i < PollerView::reset(app, now, wall).dirs.len(),
    ensures
        ({
            let dirs = PollerView::reset(app, now, wall).dirs;
            let t = dirs[i];
            let n = dirs.len() as int;
            let old = t.last_modified matches Some(m) && wall - m >= 30 * 86_400 * 1_000_000_000;
            &&& t.tier == if old {
                Tier::Dormant
            } else {
                Tier::Unknown(0)
            }
            &&& old ==> t.next_due == now + (i + 1) * 60_000 / n * 1_000_000
            &&& !old ==> t.next_due == now + (i + 1) * 10_000 / n * 1_000_000
            &&& i == n - 1 ==> t.next_due == now + seconds_between(t.tier) * 1_000_000_000
        }),
{
    let bases = baselines(app);
    let n = bases.len() as int;
    let t = first_tier(bases[i], wall);
    let ms = interval_of(t) as int / 1_000_000;
    let x = (i + 1) * ms;
    assert(0 <= x / n <= ms) by (nonlinear_arith)
        requires
            x == (i + 1) * ms,
            0 <= i,
            i + 1 <= n,
            ms >= 0,
    ;
    if i == n - 1 {
        assert(n * ms / n == ms) by (nonlinear_arith)
            requires
                n > 0,
        ;
    }
}

/// Law: without a batch under way exactly what is due is measured, and a batch is
/// under way from then on if anything is; a batch that arrives ends that.
pub proof fn law_batches(p: PollerView, ms: Seq<MeasurementView>, now: Moment)
    ensures
        !p.in_flight ==> p.batch(now) == due(p.dirs, now),
        !p.in_flight ==> (p.start(now).in_flight <==> due(p.dirs, now).len() > 0),
        p.start(now).dirs == p.dirs,
        !p.receive(ms, now).in_flight,
        p.receive(ms, now).dirs == track_all(p.dirs, ms, now),
        p.receive_all(seq![ms], now) == p.receive(ms, now),
{
    reveal_with_fuel(PollerView::receive_all, 2);
    assert(seq![ms].drop_last() =~= Seq::<Seq<MeasurementView>>::empty());
}

/// Law: batches, and the measurements in them, are taken over one after the other.
pub proof fn law_batches_in_order(
    p: PollerView,
    batches: Seq<Seq<MeasurementView>>,
    ms: Seq<MeasurementView>,
    m: MeasurementView,
    app: AppView,
    now: Moment,
)
    ensures
        p.receive_all(batches.push(ms), now) == p.receive_all(batches, now).receive(ms, now),
        track_all(p.dirs, ms.push(m), now) == track(track_all(p.dirs, ms, now), m, now),
        track_all(p.dirs, Seq::empty(), now) == p.dirs,
        apply_batches(app, batches.push(ms)) == apply_batches(app, batches).apply_measurements(ms),
        apply_batches(app, Seq::empty()) == app,
{
    assert(batches.push(ms).drop_last() =~= batches);
    assert(ms.push(m).drop_last() =~= ms);
}

} // verus!
