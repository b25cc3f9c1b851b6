//! Measuring again what has changed on disk: which directories have changed,
//! which measurements are still the newest when they arrive, and when watches
//! are set up anew.
use vstd::prelude::*;

use crate::app::{App, AppView};
use crate::file_path::{path_view, paths, FilePath};
use crate::scan::{measurements_view, Measurement, MeasurementView};
use crate::seqs::lemma_concat_contains;

verus! {

/// Follows the changes on disk. Directories that changed are measured in
/// flushes, each with a number; only the newest flush counts.
#[derive(Clone, Copy, Debug, PartialEq, Eq, Structural)]
pub struct LiveWatcher {
    /// Whether changes are reported at all.
    pub watching: bool,
    /// The number of the last flush.
    pub flush_seq: u64,
    /// The number of the flush whose measurements count.
    pub latest_sent: u64,
}

/// What kind of change a notice of the file system is about.
#[derive(Clone, Copy, Debug, PartialEq, Eq, Structural)]
pub enum ChangeKind {
    /// It is not known.
    Any,
    /// Something was read.
    Access,
    /// Something was created.
    Create,
    /// Something was written or renamed.
    Modify,
    /// Something was removed.
    Remove,
    /// Anything else.
    Other,
}

/// A notice of the file system.
#[derive(Debug)]
pub enum Notice {
    /// The watches failed to tell what happened.
    Failed,
    /// Something happened at a number of places.
    Changed {
        kind: ChangeKind,
        /// For each place the watched directory that it belongs to, if any.
        dirs: Vec<Option<FilePath>>,
    },
}

/// What a `Notice` says.
#[verifier::ext_equal]
pub enum NoticeView {
    Failed,
    Changed { kind: ChangeKind, dirs: Seq<Option<Seq<u8>>> },
}

/// What a list of optional paths says.
pub open spec fn places_view(v: Seq<Option<FilePath>>) -> Seq<Option<Seq<u8>>> {
    v.map_values(|d: Option<FilePath>| path_view(d))
}

impl View for Notice {
    type V = NoticeView;

    open spec fn view(&self) -> NoticeView {
        match self {
            Notice::Failed => NoticeView::Failed,
            Notice::Changed { kind, dirs } => NoticeView::Changed {
                kind: *kind,
                dirs: places_view(dirs@),
            },
        }
    }
}

/// What a list of notices says.
pub open spec fn notices_view(v: Seq<Notice>) -> Seq<NoticeView> {
    v.map_values(|n: Notice| n@)
}

/// The directories that places belong to, in order.
pub open spec fn known_dirs(dirs: Seq<Option<Seq<u8>>>) -> Seq<Seq<u8>>
    decreases dirs.len(),
{
    if dirs.len() == 0 {
        Seq::empty()
    } else {
        match dirs.last() {
            Some(d) => known_dirs(dirs.drop_last()).push(d),
            None => known_dirs(dirs.drop_last()),
        }
    }
}

/// The directories that a notice marks as changed: none if something was only
/// read, so that measuring marks nothing.
pub open spec fn marks(n: NoticeView) -> Seq<Seq<u8>> {
    match n {
        NoticeView::Changed { kind, dirs } if kind != ChangeKind::Access => known_dirs(dirs),
        _ => Seq::empty(),
    }
}

/// The directories that notices mark as changed, in order.
pub open spec fn marked(ns: Seq<NoticeView>) -> Seq<Seq<u8>>
    decreases ns.len(),
{
    if ns.len() == 0 {
        Seq::empty()
    } else {
        marked(ns.drop_last()) + marks(ns.last())
    }
}

/// Lists the directories that notices mark as changed.
pub fn changed_dirs(notices: &Vec<Notice>) -> (r: Vec<FilePath>)
    ensures
        paths(r@) == marked(notices_view(notices@)),
{
    let ghost all = notices_view(notices@);
    let mut r: Vec<FilePath> = Vec::new();
    assert(all.take(0) =~= Seq::<NoticeView>::empty());
    assert(paths(r@) =~= Seq::<Seq<u8>>::empty());
    for i in 0..notices.len()
        invariant
            all == notices_view(notices@),
            paths(r@) == marked(all.take(i as int)),
    {
        let ghost before = paths(r@);
        assert(all.take(i + 1).drop_last() =~= all.take(i as int));
        assert(all.take(i + 1).last() == notices@[i as int]@);
        match &notices[i] {
            Notice::Changed { kind, dirs } if *kind != ChangeKind::Access => {
                push_known(&mut r, dirs);
            },
            _ => {
                assert(before + Seq::<Seq<u8>>::empty() =~= before);
            },
        }
    }
    assert(all.take(all.len() as int) =~= all);
    r
}

/// Adds the directories that places belong to.
fn push_known(r: &mut Vec<FilePath>, dirs: &Vec<Option<FilePath>>)
    ensures
        paths(final(r)@) == paths(old(r)@) + known_dirs(places_view(dirs@)),
{
    let ghost all = places_view(dirs@);
    let ghost start = paths(r@);
    assert(all.take(0) =~= Seq::<Option<Seq<u8>>>::empty());
    assert(start + known_dirs(all.take(0)) =~= start);
    for i in 0..dirs.len()
        invariant
            all == places_view(dirs@),
            paths(r@) == start + known_dirs(all.take(i as int)),
    {
        let ghost before = paths(r@);
        assert(all.take(i + 1).drop_last() =~= all.take(i as int));
        assert(all.take(i + 1).last() == path_view(dirs@[i as int]));
        if let Some(d) = &dirs[i] {
            r.push(d.clone());
            assert(paths(r@) =~= before.push(d@));
            assert(paths(r@) =~= start + known_dirs(all.take(i + 1)));
        }
    }
    assert(all.take(all.len() as int) =~= all);
}

/// A flush that was measured: its number and its measurements.
#[derive(Debug)]
pub struct Flush {
    pub id: u64,
    pub measurements: Vec<Measurement>,
}

/// What a `Flush` says.
#[verifier::ext_equal]
pub struct FlushView {
    pub id: u64,
    pub measurements: Seq<MeasurementView>,
}

impl View for Flush {
    type V = FlushView;

    open spec fn view(&self) -> FlushView {
        FlushView { id: self.id, measurements: measurements_view(self.measurements@) }
    }
}

/// What a list of flushes says.
pub open spec fn flushes_view(v: Seq<Flush>) -> Seq<FlushView> {
    v.map_values(|f: Flush| f@)
}

/// The state of the table after flushes arrived of which one number counts.
pub open spec fn apply_flushes(app: AppView, fs: Seq<FlushView>, latest: u64) -> AppView
    decreases fs.len(),
{
    if fs.len() == 0 {
        app
    } else {
        let before = apply_flushes(app, fs.drop_last(), latest);
        if fs.last().id == latest {
            before.apply_measurements(fs.last().measurements)
        } else {
            before
        }
    }
}

/// Whether a flush of the given number is among those that arrived.
pub open spec fn arrives(fs: Seq<FlushView>, id: u64) -> bool {
    exists|i: int| 0 <= i < fs.len() && (#[trigger] fs[i]).id == id
}

impl LiveWatcher {
    /// Whether watches are set up anew after flushes arrived: only if the newest
    /// one is among them, and if that left watches to be renewed.
    pub open spec fn renews(self, fs: Seq<FlushView>, renewal_needed: bool) -> bool {
        renewal_needed && arrives(fs, self.latest_sent)
    }

    /// The watcher after one more flush was started, if anything is due.
    pub open spec fn flushed(self, is_due: bool) -> LiveWatcher {
        if is_due {
            LiveWatcher {
                flush_seq: (self.flush_seq + 1) as u64,
                latest_sent: (self.flush_seq + 1) as u64,
                ..self
            }
        } else {
            self
        }
    }

    /// A watcher that is not told of any changes yet.
    pub fn new() -> (r: LiveWatcher)
        ensures
            r == (LiveWatcher { watching: false, flush_seq: 0, latest_sent: 0 }),
    {
        LiveWatcher { watching: false, flush_seq: 0, latest_sent: 0 }
    }

    /// Takes over whether fresh watches could be set up.
    pub fn rewatch(&mut self, built: bool)
        ensures
            *final(self) == (LiveWatcher { watching: built, ..*old(self) }),
    {
        self.watching = built;
    }

    /// Drops all watches.
    pub fn clear(&mut self)
        ensures
            *final(self) == (LiveWatcher { watching: false, ..*old(self) }),
    {
        self.watching = false;
    }

    /// Starts a flush if anything is due, and takes over the flushes that have
    /// arrived: the newest one alone. Returns the number of the flush that was
    /// started.
    pub fn poll(&mut self, app: &mut App, is_due: bool, arrived: &Vec<Flush>) -> (r: Option<u64>)
        requires
            is_due ==> old(self).flush_seq < u64::MAX,
        ensures
            *final(self) == old(self).flushed(is_due),
            r == if is_due {
                Some(final(self).flush_seq)
            } else {
                None
            },
            final(app)@ == apply_flushes(
                old(app)@,
                flushes_view(arrived@),
                final(self).latest_sent,
            ),
    {
        let started: Option<u64> = if is_due {
            self.flush_seq = self.flush_seq + 1;
            self.latest_sent = self.flush_seq;
            Some(self.flush_seq)
        } else {
            None
        };
        let ghost start = app@;
        let ghost all = flushes_view(arrived@);
        let latest: u64 = self.latest_sent;
        assert(all.take(0) =~= Seq::<FlushView>::empty());
        for i in 0..arrived.len()
            invariant
                all == flushes_view(arrived@),
                app@ == apply_flushes(start, all.take(i as int), latest),
        {
            assert(all.take(i + 1).drop_last() =~= all.take(i as int));
            assert(all.take(i + 1).last() == arrived@[i as int]@);
            if arrived[i].id == latest {
                app.apply_measurements(arrived[i].measurements.as_slice());
            }
        }
        assert(all.take(all.len() as int) =~= all);
        started
    }

    /// Decides whether watches are set up anew, once the flushes that arrived
    /// were taken over.
    pub fn needs_rewatch(&self, arrived: &Vec<Flush>, renewal_needed: bool) -> (b: bool)
        ensures
            b == self.renews(flushes_view(arrived@), renewal_needed),
    {
        if !renewal_needed {
            return false;
        }
        let ghost all = flushes_view(arrived@);
        for i in 0..arrived.len()
            invariant
                renewal_needed,
                all == flushes_view(arrived@),
                forall|j: int| 0 <= j < i ==> (#[trigger] all[j]).id != self.latest_sent,
        {
            assert(all[i as int] == arrived@[i as int]@);
            if arrived[i].id == self.latest_sent {
                return true;
            }
        }
        false
    }
}

impl Default for LiveWatcher {
    fn default() -> (r: LiveWatcher)
        ensures
            r == (LiveWatcher { watching: false, flush_seq: 0, latest_sent: 0 }),
    {
        LiveWatcher::new()
    }
}

/// Law: flushes that are not the newest change nothing, so measurements that
/// overlap cannot write stale sizes, and they renew no watches.
pub proof fn law_stale_flushes_ignored(app: AppView, fs: Seq<FlushView>, latest: u64)
    requires
        forall|i: int| 0 <= i < fs.len() ==> (#[trigger] fs[i]).id != latest,
    ensures
        apply_flushes(app, fs, latest) == app,
        !arrives(fs, latest),
    decreases fs.len(),
{
    if fs.len() > 0 {
        let d = fs.drop_last();
        assert forall|i: int| 0 <= i < d.len() implies (#[trigger] d[i]).id != latest by {
            assert(d[i] == fs[i]);
        }
        law_stale_flushes_ignored(app, d, latest);
        assert(fs.last() == fs[fs.len() - 1]);
    }
}

/// Law: a flush that is started makes all earlier ones stale.
pub proof fn law_new_flush_is_newest(w: LiveWatcher)
    requires
        w.flush_seq < u64::MAX,
        w.latest_sent <= w.flush_seq,
    ensures
        w.flushed(true).latest_sent == w.flushed(true).flush_seq,
        w.latest_sent < w.flushed(true).latest_sent,
{
}

/// Law: notices mark the same directories whether they arrive together or in
/// two parts.
pub proof fn law_marked_in_parts(a: Seq<NoticeView>, b: Seq<NoticeView>)
    ensures
        marked(a + b) == marked(a) + marked(b),
    decreases b.len(),
{
    if b.len() == 0 {
        assert(a + b =~= a);
        assert(marked(a) + marked(b) =~= marked(a));
    } else {
        law_marked_in_parts(a, b.drop_last());
        assert((a + b).drop_last() =~= a + b.drop_last());
        assert((a + b).last() == b.last());
        assert(marked(a + b) =~= marked(a) + marked(b));
    }
}

/// Whether a place of one of the notices that are more than reads belongs to a
/// directory.
pub open spec fn changes(ns: Seq<NoticeView>, dir: Seq<u8>) -> bool {
    exists|i: int| 0 <= i < ns.len() && changes_one(#[trigger] ns[i], dir)
}

/// Whether a place of the notice belongs to a directory, and the notice is more
/// than a read.
pub open spec fn changes_one(n: NoticeView, dir: Seq<u8>) -> bool {
    n matches NoticeView::Changed { kind, dirs } && kind != ChangeKind::Access && dirs.contains(
        Some(dir),
    )
}

/// Which directories places belong to.
proof fn lemma_known_dirs(dirs: Seq<Option<Seq<u8>>>, dir: Seq<u8>)
    ensures
        known_dirs(dirs).contains(dir) <==> dirs.contains(Some(dir)),
    decreases dirs.len(),
{
    if dirs.len() > 0 {
        let u = dirs.drop_last();
        let r = known_dirs(dirs);
        lemma_known_dirs(u, dir);
        if u.contains(Some(dir)) {
            let i = choose|i: int| 0 <= i < u.len() && u[i] == Some(dir);
            assert(dirs[i] == Some(dir));
            let k = choose|k: int| 0 <= k < known_dirs(u).len() && known_dirs(u)[k] == dir;
            assert(r[k] == dir);
        }
        if dirs.last() == Some(dir) {
            assert(r[r.len() - 1] == dir);
        }
        if dirs.contains(Some(dir)) && dirs.last() != Some(dir) {
            let i = choose|i: int| 0 <= i < dirs.len() && dirs[i] == Some(dir);
            assert(u[i] == Some(dir));
        }
    }
}

/// Law: a directory is marked exactly if a place of a notice that is more than
/// a read belongs to it.
pub proof fn law_marked(ns: Seq<NoticeView>, dir: Seq<u8>)
    ensures
        marked(ns).contains(dir) <==> changes(ns, dir),
    decreases ns.len(),
{
    if ns.len() > 0 {
        let u = ns.drop_last();
        let last = ns.last();
        law_marked(u, dir);
        match last {
            NoticeView::Changed { kind, dirs } => {
                lemma_known_dirs(dirs, dir);
            },
            NoticeView::Failed => {},
        }
        lemma_concat_contains(marked(u), marks(last));
        assert(marks(last).contains(dir) <==> changes_one(last, dir));
        if changes(u, dir) {
            let i = choose|i: int| 0 <= i < u.len() && changes_one(#[trigger] u[i], dir);
            assert(ns[i] == u[i]);
        }
        if changes(ns, dir) && !changes_one(last, dir) {
            let i = choose|i: int| 0 <= i < ns.len() && changes_one(#[trigger] ns[i], dir);
            assert(u[i] == ns[i]);
        }
        if changes_one(last, dir) {
            assert(changes_one(ns[ns.len() - 1], dir));
        }
    }
}

/// Law: reads mark nothing, so that measuring a directory never marks it.
pub proof fn law_reads_mark_nothing(ns: Seq<NoticeView>)
    requires
        forall|i: int|
            0 <= i < ns.len() ==> ((#[trigger] ns[i]) matches NoticeView::Changed { kind, .. }
                ==> kind == ChangeKind::Access),
    ensures
        marked(ns) == Seq::<Seq<u8>>::empty(),
    decreases ns.len(),
{
    if ns.len() > 0 {
        let u = ns.drop_last();
        assert forall|i: int| 0 <= i < u.len() implies ((#[trigger] u[i])
            matches NoticeView::Changed { kind, .. } ==> kind == ChangeKind::Access) by {
            assert(u[i] == ns[i]);
        }
        law_reads_mark_nothing(u);
        assert(ns.last() == ns[ns.len() - 1]);
        assert(marks(ns.last()) == Seq::<Seq<u8>>::empty());
    }
}

/// Law: a flush changes the table exactly if it is the newest, and then by all its
/// measurements; flushes are taken over in the order in which they arrive.
pub proof fn law_flush_arrives(app: AppView, fs: Seq<FlushView>, f: FlushView, latest: u64)
    ensures
        apply_flushes(app, Seq::empty(), latest) == app,
        f.id == latest ==> apply_flushes(app, fs.push(f), latest) == apply_flushes(
            app,
            fs,
            latest,
        ).apply_measurements(f.measurements),
        f.id != latest ==> apply_flushes(app, fs.push(f), latest) == apply_flushes(
            app,
            fs,
            latest,
        ),
{
    assert(fs.push(f).drop_last() =~= fs);
}

/// Law: a flush that is started gets the next number, and it alone counts from then
/// on; where nothing is due nothing changes.
pub proof fn law_flushed(w: LiveWatcher)
    requires
        w.flush_seq < u64::MAX,
    ensures
        w.flushed(true).flush_seq == w.flush_seq + 1,
        w.flushed(true).latest_sent == w.flush_seq + 1,
        w.flushed(true).watching == w.watching,
        w.flushed(false) == w,
{
}

/// Law: watches are set up anew exactly if they are to be renewed and the newest
/// flush is among those that arrived.
pub proof fn law_renews(w: LiveWatcher, fs: Seq<FlushView>, i: int)
    ensures
        !w.renews(fs, false),
        0 <= i < fs.len() && fs[i].id == w.latest_sent ==> w.renews(fs, true),
        (forall|k: int| 0 <= k < fs.len() ==> (#[trigger] fs[k]).id != w.latest_sent)
            ==> !w.renews(fs, true),
{
}

/// Law: a notice that is more than a read marks the directory of each place that has
/// one, as often as it has; a notice that failed to tell marks none.
pub proof fn law_notice_marks(
    kind: ChangeKind,
    dirs: Seq<Option<Seq<u8>>>,
    dir: Seq<u8>,
)
    ensures
        marks(NoticeView::Failed) == Seq::<Seq<u8>>::empty(),
        kind == ChangeKind::Access ==> marks(NoticeView::Changed { kind, dirs }) == Seq::<
            Seq<u8>,
        >::empty(),
        kind != ChangeKind::Access ==> marks(
            NoticeView::Changed { kind, dirs: dirs.push(Some(dir)) },
        ) == marks(NoticeView::Changed { kind, dirs }).push(dir),
        kind != ChangeKind::Access ==> marks(NoticeView::Changed { kind, dirs: dirs.push(None) })
            == marks(NoticeView::Changed { kind, dirs }),
{
    assert(dirs.push(Some(dir)).drop_last() =~= dirs);
    assert(dirs.push(None).drop_last() =~= dirs);
}

} // verus!
