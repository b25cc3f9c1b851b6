//! Which directories are projects, which ones a walk goes into, and what a scan
//! reports of them.
use vstd::prelude::*;
use vstd::utf8::encode_utf8;

use crate::file_path::{path_view, paths, same_bytes, FilePath};
use crate::order::{law_path_order, path_order, sort_paths};
use crate::path::{joined, parent, path_lt};
use crate::scan::measure::{measure_target, measured, walk_view, EntryRec};
use crate::scan::{
    default_target, discovered_view, entry_view, DiscoveredEntry, DiscoveredView, EntryView,
    Measurement, MeasurementView, OutputKind, TargetEntry,
};
use crate::seqs::{law_sorted, sorted};

verus! {

/// What a scan reports while it runs.
#[derive(Debug)]
pub enum ScanEvent {
    /// The output directories that were found, before any of them is measured.
    Discovered(Vec<DiscoveredEntry>),
    /// One output directory was measured.
    Measured(Measurement),
    /// The scan is over, with the build cache if there is one.
    Done {
        build_cache: Option<TargetEntry>,
    },
}

/// What a walk does with an entry that it comes to.
#[derive(Clone, Copy, Debug, PartialEq, Eq, Structural)]
pub enum WalkRule {
    /// Report it, and go into it if it is a directory.
    Keep,
    /// Leave it out with all below it.
    Prune,
    /// Leave it out if it is the output directory of a project, that is, if a
    /// `Cargo.toml` stands beside it.
    PruneBesideManifest,
}

/// What a walk does with an entry of the given name. The start of the walk is
/// always kept.
pub open spec fn rule_for(depth: nat, name: Seq<u8>) -> WalkRule {
    if depth == 0 {
        WalkRule::Keep
    } else if name == encode_utf8(".git"@) || name == encode_utf8(".cargo"@) {
        WalkRule::Prune
    } else if name == encode_utf8("target"@) {
        WalkRule::PruneBesideManifest
    } else {
        WalkRule::Keep
    }
}

/// Decides what a walk does with an entry, from its depth and its name.
pub fn walk_rule(depth: usize, name: &[u8]) -> (r: WalkRule)
    ensures
        r == rule_for(depth as nat, name@),
{
    if depth == 0 {
        WalkRule::Keep
    } else if same_bytes(name, ".git".as_bytes()) || same_bytes(name, ".cargo".as_bytes()) {
        WalkRule::Prune
    } else if same_bytes(name, "target".as_bytes()) {
        WalkRule::PruneBesideManifest
    } else {
        WalkRule::Keep
    }
}

/// Whether a walk keeps an entry, given whether a `Cargo.toml` stands beside it.
pub fn keep_entry(rule: WalkRule, manifest_beside: bool) -> (b: bool)
    ensures
        b == match rule {
            WalkRule::Keep => true,
            WalkRule::Prune => false,
            WalkRule::PruneBesideManifest => !manifest_beside,
        },
{
    match rule {
        WalkRule::Keep => true,
        WalkRule::Prune => false,
        WalkRule::PruneBesideManifest => !manifest_beside,
    }
}

/// Where the manifest beside a directory would be.
pub fn manifest_beside(dir: &FilePath) -> (r: Option<FilePath>)
    ensures
        path_view(r) == match parent(dir@) {
            Some(p) => Some(joined(p, encode_utf8("Cargo.toml"@))),
            None => None,
        },
{
    match dir.parent() {
        Some(p) => Some(p.join("Cargo.toml")),
        None => None,
    }
}

/// What a walk finds out about an entry.
#[derive(Clone, Copy, Debug, PartialEq, Eq, Structural)]
pub struct Visited {
    /// Whether the entry is a link.
    pub is_symlink: bool,
    /// Whether it is a directory.
    pub is_dir: bool,
    /// Whether it holds a file `Cargo.toml`.
    pub has_manifest: bool,
    /// Whether it holds a directory `target` that is no link.
    pub has_target: bool,
}

/// Whether a walk reports an entry as a project: a directory, no link, with
/// `Cargo.toml` and `target/` in it.
pub open spec fn is_project(v: Visited) -> bool {
    !v.is_symlink && v.is_dir && v.has_manifest && v.has_target
}

/// Adds an entry to the projects, if it is one.
pub fn visit_entry(dir: &FilePath, visited: Visited, projects: &mut Vec<FilePath>)
    ensures
        paths(final(projects)@) == if is_project(visited) {
            paths(old(projects)@).push(dir@)
        } else {
            paths(old(projects)@)
        },
{
    if visited.is_symlink || !visited.is_dir {
        return;
    }
    if visited.has_manifest && visited.has_target {
        projects.push(dir.clone());
        assert(paths(projects@) =~= paths(old(projects)@).push(dir@));
    }
}

/// Whether an entry is a project without `target/`. Its output may stand where
/// a config says.
pub open spec fn is_bare_project(v: Visited) -> bool {
    !v.is_symlink && v.is_dir && v.has_manifest && !v.has_target
}

/// Adds an entry to the projects, if it is one without `target/`.
pub fn visit_bare(dir: &FilePath, visited: Visited, projects: &mut Vec<FilePath>)
    ensures
        paths(final(projects)@) == if is_bare_project(visited) {
            paths(old(projects)@).push(dir@)
        } else {
            paths(old(projects)@)
        },
{
    if visited.is_symlink || !visited.is_dir {
        return;
    }
    if visited.has_manifest && !visited.has_target {
        projects.push(dir.clone());
        assert(paths(projects@) =~= paths(old(projects)@).push(dir@));
    }
}

/// A project with its default output directory.
pub open spec fn by_default(project_path: Seq<u8>) -> DiscoveredView {
    DiscoveredView {
        project_path,
        target_dir: default_target(project_path),
        kind: OutputKind::Target,
    }
}

/// What a `ScanEvent` says.
#[verifier::ext_equal]
pub enum EventView {
    Discovered(Seq<DiscoveredView>),
    Measured(MeasurementView),
    Done(Option<EntryView>),
}

impl View for ScanEvent {
    type V = EventView;

    open spec fn view(&self) -> EventView {
        match self {
            ScanEvent::Discovered(d) => EventView::Discovered(discovered_view(d@)),
            ScanEvent::Measured(m) => EventView::Measured(m@),
            ScanEvent::Done { build_cache } => EventView::Done(entry_view(*build_cache)),
        }
    }
}

/// The view of an optional event.
pub open spec fn event_view(e: Option<ScanEvent>) -> Option<EventView> {
    match e {
        Some(x) => Some(x@),
        None => None,
    }
}

/// What a list of events says.
pub open spec fn events_view(v: Seq<ScanEvent>) -> Seq<EventView> {
    v.map_values(|e: ScanEvent| e@)
}

/// The directories to measure for a list of findings.
pub open spec fn found_dirs(found: Seq<DiscoveredView>) -> Seq<Seq<u8>> {
    found.map_values(|d: DiscoveredView| d.target_dir)
}

/// What a `ScanStream` says.
#[verifier::ext_equal]
pub struct StreamView {
    /// The directories that were found.
    pub dirs: Seq<Seq<u8>>,
    /// Which of them are still to be measured.
    pub waiting: Seq<bool>,
    /// Whether the end was reported.
    pub over: bool,
}

/// What happens to a scan after its first report.
pub enum StreamStep {
    /// A walk through the directory of the given number has ended.
    Walked(int, Option<Seq<EntryRec>>),
    /// The build cache was looked at.
    CacheRead(Option<EntryView>),
}

impl StreamView {
    /// A scan that has reported what it found.
    pub open spec fn started(found: Seq<DiscoveredView>) -> StreamView {
        StreamView {
            dirs: found_dirs(found),
            waiting: Seq::new(found.len(), |i: int| true),
            over: false,
        }
    }

    /// Whether the directory of the given number is still to be measured.
    pub open spec fn awaits(self, i: int) -> bool {
        0 <= i < self.waiting.len() && self.waiting[i]
    }

    /// Whether no directory is.
    pub open spec fn all_measured(self) -> bool {
        forall|i: int| 0 <= i < self.waiting.len() ==> !#[trigger] self.waiting[i]
    }

    /// The scan after a step. Only the first walk of a directory counts, and
    /// the scan ends only when all were measured.
    pub open spec fn step(self, step: StreamStep) -> StreamView {
        match step {
            StreamStep::Walked(i, _) => if self.awaits(i) {
                StreamView { waiting: self.waiting.update(i, false), ..self }
            } else {
                self
            },
            StreamStep::CacheRead(_) => StreamView {
                over: self.over || self.all_measured(),
                ..self
            },
        }
    }

    /// What is reported of a step.
    pub open spec fn report(self, step: StreamStep) -> Option<EventView> {
        match step {
            StreamStep::Walked(i, walk) => if self.awaits(i) {
                Some(EventView::Measured(measured(self.dirs[i], walk)))
            } else {
                None
            },
            StreamStep::CacheRead(build_cache) => if !self.over && self.all_measured() {
                Some(EventView::Done(build_cache))
            } else {
                None
            },
        }
    }

    /// The scan after a number of steps.
    pub open spec fn run(self, steps: Seq<StreamStep>) -> StreamView
        decreases steps.len(),
    {
        if steps.len() == 0 {
            self
        } else {
            self.run(steps.drop_last()).step(steps.last())
        }
    }

    /// What is reported of them.
    pub open spec fn reports(self, steps: Seq<StreamStep>) -> Seq<EventView>
        decreases steps.len(),
    {
        if steps.len() == 0 {
            Seq::empty()
        } else {
            let before = self.reports(steps.drop_last());
            match self.run(steps.drop_last()).report(steps.last()) {
                Some(e) => before.push(e),
                None => before,
            }
        }
    }
}

/// A directory that a scan found, and whether it is still to be measured.
struct Awaited {
    dir: FilePath,
    waiting: bool,
}

/// A scan that has reported what it found: decides what is reported of each
/// walk that ends, and when the scan is over.
pub struct ScanStream {
    dirs: Vec<Awaited>,
    over: bool,
}

impl View for ScanStream {
    type V = StreamView;

    closed spec fn view(&self) -> StreamView {
        StreamView {
            dirs: self.dirs@.map_values(|a: Awaited| a.dir@),
            waiting: self.dirs@.map_values(|a: Awaited| a.waiting),
            over: self.over,
        }
    }
}

impl ScanStream {
    /// Starts a scan with what was found, which is its first report.
    pub fn start(found: Vec<DiscoveredEntry>) -> (r: (ScanStream, ScanEvent))
        ensures
            r.0@ == StreamView::started(discovered_view(found@)),
            r.1@ == EventView::Discovered(discovered_view(found@)),
    {
        let ghost all = discovered_view(found@);
        let mut dirs: Vec<Awaited> = Vec::new();
        for i in 0..found.len()
            invariant
                all == discovered_view(found@),
                dirs@.len() == i,
                forall|j: int|
                    0 <= j < i ==> (#[trigger] dirs@[j]).dir@ == all[j].target_dir
                        && dirs@[j].waiting,
        {
            dirs.push(Awaited { dir: found[i].target_dir.clone(), waiting: true });
        }
        let stream = ScanStream { dirs, over: false };
        assert(stream@ =~= StreamView::started(all));
        (stream, ScanEvent::Discovered(found))
    }

    /// Takes over what a walk through the directory of the given number
    /// recorded. The first walk of each directory is reported.
    pub fn walked(&mut self, index: usize, walk: &Option<Vec<EntryRec>>) -> (r: Option<ScanEvent>)
        ensures
            final(self)@ == old(self)@.step(StreamStep::Walked(index as int, walk_view(*walk))),
            event_view(r) == old(self)@.report(
                StreamStep::Walked(index as int, walk_view(*walk)),
            ),
    {
        let ghost before = self@;
        assert(before.waiting.len() == self.dirs@.len());
        if index >= self.dirs.len() || !self.dirs[index].waiting {
            return None;
        }
        let dir = self.dirs[index].dir.clone();
        let m = measure_target(&dir, walk);
        self.dirs.set(index, Awaited { dir, waiting: false });
        assert(self@ =~= before.step(StreamStep::Walked(index as int, walk_view(*walk))));
        Some(ScanEvent::Measured(m))
    }

    /// Ends the scan with what the build cache came to, once every directory
    /// was measured.
    pub fn finish(&mut self, build_cache: Option<TargetEntry>) -> (r: Option<ScanEvent>)
        ensures
            final(self)@ == old(self)@.step(StreamStep::CacheRead(entry_view(build_cache))),
            event_view(r) == old(self)@.report(StreamStep::CacheRead(entry_view(build_cache))),
    {
        if self.over {
            return None;
        }
        for i in 0..self.dirs.len()
            invariant
                *self == *old(self),
                forall|j: int| 0 <= j < i ==> !(#[trigger] self.dirs@[j]).waiting,
        {
            if self.dirs[i].waiting {
                assert(self@.waiting[i as int]);
                return None;
            }
        }
        assert(self@.all_measured()) by {
            assert forall|j: int| 0 <= j < self@.waiting.len() implies !#[trigger] self@.waiting[j] by {
                assert(!self.dirs@[j].waiting);
            }
        }
        self.over = true;
        Some(ScanEvent::Done { build_cache })
    }
}

/// The reports of a scan before its end: what was found, then measurements.
pub open spec fn scan_reports(found: Seq<DiscoveredView>, ms: Seq<MeasurementView>) -> Seq<
    EventView,
> {
    seq![EventView::Discovered(found)] + ms.map_values(
        |m: MeasurementView| EventView::Measured(m),
    )
}

/// What walks through a list of directories come to.
pub open spec fn measured_all(
    dirs: Seq<Seq<u8>>,
    walks: Seq<Option<Vec<EntryRec>>>,
) -> Seq<MeasurementView> {
    Seq::new(dirs.len(), |i: int| measured(dirs[i], walk_view(walks[i])))
}

/// What a scan finds among projects: each with its default output directory,
/// in the order of their paths.
pub open spec fn found_of(projects: Seq<Seq<u8>>) -> Seq<DiscoveredView> {
    sorted(path_order(), projects).map_values(|p: Seq<u8>| by_default(p))
}

/// Finds the default output directories of projects.
fn find_defaults(projects: Vec<FilePath>) -> (found: Vec<DiscoveredEntry>)
    ensures
        discovered_view(found@) == found_of(paths(projects@)),
{
    let mut projects = projects;
    sort_paths(&mut projects);
    let ghost all = paths(projects@);
    let mut found: Vec<DiscoveredEntry> = Vec::new();
    for i in 0..projects.len()
        invariant
            all == paths(projects@),
            discovered_view(found@) == all.take(i as int).map_values(|p: Seq<u8>| by_default(p)),
    {
        let ghost before = found@;
        found.push(DiscoveredEntry::from(projects[i].clone()));
        assert(discovered_view(found@) =~= discovered_view(before).push(
            by_default(all[i as int]),
        ));
        assert(discovered_view(found@) =~= all.take(i + 1).map_values(
            |p: Seq<u8>| by_default(p),
        ));
    }
    assert(all.take(all.len() as int) =~= all);
    found
}

/// All reports of a scan, from the projects, from what walking through the
/// output directory of each recorded, in the order of their paths, and from
/// the build cache: what was found, one measurement for each project, and the
/// end.
pub fn scan_stream(
    projects: Vec<FilePath>,
    walks: &Vec<Option<Vec<EntryRec>>>,
    build_cache: Option<TargetEntry>,
) -> (r: Vec<ScanEvent>)
    requires
        walks@.len() == projects@.len(),
    ensures
        events_view(r@) == scan_reports(
            found_of(paths(projects@)),
            measured_all(found_dirs(found_of(paths(projects@))), walks@),
        ).push(EventView::Done(entry_view(build_cache))),
{
    let ghost found = found_of(paths(projects@));
    let ghost dirs = found_dirs(found);
    let ghost ms = measured_all(dirs, walks@);
    proof {
        law_path_order();
        law_sorted(path_order(), paths(projects@));
    }
    let (mut stream, first) = ScanStream::start(find_defaults(projects));
    let mut r: Vec<ScanEvent> = Vec::new();
    r.push(first);
    assert(events_view(r@) =~= scan_reports(found, ms.take(0)));
    for i in 0..walks.len()
        invariant
            walks@.len() == dirs.len(),
            ms == measured_all(dirs, walks@),
            events_view(r@) == scan_reports(found, ms.take(i as int)),
            stream@ == (StreamView {
                dirs,
                waiting: Seq::new(dirs.len(), |j: int| j >= i),
                over: false,
            }),
    {
        let ghost before = r@;
        if let Some(event) = stream.walked(i, &walks[i]) {
            r.push(event);
        }
        assert(events_view(r@) =~= events_view(before).push(EventView::Measured(ms[i as int])));
        assert(events_view(r@) =~= scan_reports(found, ms.take(i + 1)));
        assert(stream@.waiting =~= Seq::new(dirs.len(), |j: int| j >= i + 1));
    }
    assert(ms.take(ms.len() as int) =~= ms);
    let ghost before = r@;
    if let Some(event) = stream.finish(build_cache) {
        r.push(event);
    }
    assert(events_view(r@) =~= events_view(before).push(EventView::Done(entry_view(build_cache))));
    r
}

/// Law: the reports of a scan of `n` directories are `n + 2`: what was found,
/// one measurement of each directory, and the end with the build cache.
pub proof fn law_reports(
    found: Seq<DiscoveredView>,
    walks: Seq<Option<Vec<EntryRec>>>,
    build_cache: Option<EntryView>,
)
    ensures
        ({
            let es = scan_reports(found, measured_all(found_dirs(found), walks)).push(
                EventView::Done(build_cache),
            );
            &&& es.len() == found.len() + 2
            &&& es[0] == EventView::Discovered(found)
            &&& forall|i: int|
                1 <= i <= found.len() ==> (#[trigger] es[i]) == EventView::Measured(
                    measured(found[i - 1].target_dir, walk_view(walks[i - 1])),
                )
            &&& es.last() == EventView::Done(build_cache)
        }),
{
}

/// The directories that were reported as measured, in order.
pub open spec fn measured_dirs(es: Seq<EventView>) -> Seq<Seq<u8>>
    decreases es.len(),
{
    if es.len() == 0 {
        Seq::empty()
    } else {
        match es.last() {
            EventView::Measured(m) => measured_dirs(es.drop_last()).push(m.target_dir),
            _ => measured_dirs(es.drop_last()),
        }
    }
}

/// The directories that are still to be measured, in order.
spec fn left_of(dirs: Seq<Seq<u8>>, waiting: Seq<bool>) -> Seq<Seq<u8>>
    decreases dirs.len(),
{
    if dirs.len() == 0 {
        Seq::empty()
    } else if waiting.last() {
        left_of(dirs.drop_last(), waiting.drop_last()).push(dirs.last())
    } else {
        left_of(dirs.drop_last(), waiting.drop_last())
    }
}

/// At first all directories are still to be measured.
proof fn lemma_left_of_all(dirs: Seq<Seq<u8>>, waiting: Seq<bool>)
    requires
        waiting.len() == dirs.len(),
        forall|i: int| 0 <= i < waiting.len() ==> #[trigger] waiting[i],
    ensures
        left_of(dirs, waiting) == dirs,
    decreases dirs.len(),
{
    if dirs.len() > 0 {
        lemma_left_of_all(dirs.drop_last(), waiting.drop_last());
    }
}

/// Where none waits, none is left.
proof fn lemma_left_of_none(dirs: Seq<Seq<u8>>, waiting: Seq<bool>)
    requires
        waiting.len() == dirs.len(),
        forall|i: int| 0 <= i < waiting.len() ==> !#[trigger] waiting[i],
    ensures
        left_of(dirs, waiting).len() == 0,
    decreases dirs.len(),
{
    if dirs.len() > 0 {
        lemma_left_of_none(dirs.drop_last(), waiting.drop_last());
    }
}

/// Measuring one directory takes it from those that are left.
proof fn lemma_left_of_step(dirs: Seq<Seq<u8>>, waiting: Seq<bool>, i: int)
    requires
        waiting.len() == dirs.len(),
        0 <= i < dirs.len(),
        waiting[i],
    ensures
        left_of(dirs, waiting.update(i, false)).to_multiset().insert(dirs[i]) == left_of(
            dirs,
            waiting,
        ).to_multiset(),
    decreases dirs.len(),
{
    broadcast use vstd::seq_lib::group_to_multiset_ensures;

    let d = dirs.drop_last();
    let w = waiting.drop_last();
    let u = waiting.update(i, false);
    if i < d.len() {
        lemma_left_of_step(d, w, i);
        assert(u.drop_last() =~= w.update(i, false));
        assert(left_of(dirs, u).to_multiset().insert(dirs[i]) =~= left_of(
            dirs,
            waiting,
        ).to_multiset());
    } else {
        assert(u.drop_last() =~= w);
    }
}

/// What holds of a scan after any number of steps.
proof fn lemma_stream(found: Seq<DiscoveredView>, steps: Seq<StreamStep>)
    ensures
        ({
            let start = StreamView::started(found);
            let s = start.run(steps);
            let es = start.reports(steps);
            &&& s.dirs == found_dirs(found)
            &&& s.waiting.len() == found.len()
            &&& s.over ==> s.all_measured()
            &&& measured_dirs(es).to_multiset().add(left_of(s.dirs, s.waiting).to_multiset())
                == s.dirs.to_multiset()
            &&& es.len() == measured_dirs(es).len() + if s.over {
                1int
            } else {
                0
            }
            &&& s.over ==> es.last() is Done
            &&& forall|k: int|
                0 <= k < es.len() - (if s.over {
                    1int
                } else {
                    0
                }) ==> (#[trigger] es[k]) is Measured
        }),
    decreases steps.len(),
{
    broadcast use vstd::seq_lib::group_to_multiset_ensures;

    let start = StreamView::started(found);
    if steps.len() == 0 {
        lemma_left_of_all(start.dirs, start.waiting);
        assert(measured_dirs(Seq::<EventView>::empty()).to_multiset().add(
            start.dirs.to_multiset(),
        ) =~= start.dirs.to_multiset());
    } else {
        let d = steps.drop_last();
        lemma_stream(found, d);
        let s = start.run(d);
        let t = start.run(steps);
        let before = start.reports(d);
        let es = start.reports(steps);
        match steps.last() {
            StreamStep::Walked(i, walk) => {
                if s.awaits(i) {
                    lemma_left_of_step(s.dirs, s.waiting, i);
                    assert(es.drop_last() =~= before);
                    assert(measured_dirs(es) == measured_dirs(before).push(s.dirs[i]));
                    assert(measured_dirs(es).to_multiset().add(
                        left_of(t.dirs, t.waiting).to_multiset(),
                    ) =~= measured_dirs(before).to_multiset().add(
                        left_of(s.dirs, s.waiting).to_multiset(),
                    ));
                }
            },
            StreamStep::CacheRead(build_cache) => {
                assert(t.waiting == s.waiting);
                if !s.over && s.all_measured() {
                    assert(es.drop_last() =~= before);
                }
            },
        }
    }
}

/// Law: in whatever order walks end, a scan that is over has reported one
/// measurement of each directory that was found and then its end, once; until
/// then it has only reported measurements, none of a directory twice.
pub proof fn law_stream(found: Seq<DiscoveredView>, steps: Seq<StreamStep>)
    ensures
        ({
            let s = StreamView::started(found).run(steps);
            let es = StreamView::started(found).reports(steps);
            let dirs = found_dirs(found);
            if s.over {
                &&& es.len() == found.len() + 1
                &&& es.last() is Done
                &&& forall|k: int| 0 <= k < found.len() ==> (#[trigger] es[k]) is Measured
                &&& measured_dirs(es).to_multiset() == dirs.to_multiset()
            } else {
                &&& es.len() <= found.len()
                &&& forall|k: int| 0 <= k < es.len() ==> (#[trigger] es[k]) is Measured
                &&& measured_dirs(es).to_multiset().subset_of(dirs.to_multiset())
            }
        }),
{
    broadcast use vstd::seq_lib::group_to_multiset_ensures;

    lemma_stream(found, steps);
    let s = StreamView::started(found).run(steps);
    let es = StreamView::started(found).reports(steps);
    let left = left_of(s.dirs, s.waiting);
    assert(measured_dirs(es).to_multiset().add(left.to_multiset()).len() == measured_dirs(es).len()
        + left.len());
    if s.over {
        lemma_left_of_none(s.dirs, s.waiting);
        assert(left =~= Seq::<Seq<u8>>::empty());
        assert(measured_dirs(es).to_multiset() =~= s.dirs.to_multiset());
    }
}

/// Whether one of the steps is a walk through the directory of that number.
pub open spec fn walks_through(steps: Seq<StreamStep>, i: int) -> bool {
    exists|k: int|
        0 <= k < steps.len() && (#[trigger] steps[k]) is Walked && steps[k]->Walked_0 == i
}

/// Law: once every directory was walked through, a scan is over with the next
/// look at the build cache.
pub proof fn law_stream_ends(
    found: Seq<DiscoveredView>,
    steps: Seq<StreamStep>,
    build_cache: Option<EntryView>,
)
    requires
        forall|i: int| 0 <= i < found.len() ==> #[trigger] walks_through(steps, i),
    ensures
        StreamView::started(found).run(steps.push(StreamStep::CacheRead(build_cache))).over,
{
    let start = StreamView::started(found);
    let s = start.run(steps);
    assert(steps.push(StreamStep::CacheRead(build_cache)).drop_last() =~= steps);
    assert forall|i: int| 0 <= i < s.waiting.len() implies !#[trigger] s.waiting[i] by {
        lemma_stream(found, steps);
        assert(walks_through(steps, i));
        let k = choose|k: int|
            0 <= k < steps.len() && (#[trigger] steps[k]) is Walked && steps[k]->Walked_0 == i;
        lemma_walked_is_measured(found, steps, k);
    }
}

/// A directory that was walked through no longer waits.
proof fn lemma_walked_is_measured(found: Seq<DiscoveredView>, steps: Seq<StreamStep>, k: int)
    requires
        0 <= k < steps.len(),
        steps[k] is Walked,
    ensures
        !StreamView::started(found).run(steps).awaits(steps[k]->Walked_0),
    decreases steps.len(),
{
    let d = steps.drop_last();
    if k < d.len() {
        assert(d[k] == steps[k]);
        lemma_walked_is_measured(found, d, k);
    }
}

/// Law: a scan finds each project once, with its default output directory, and
/// no project comes before one with a smaller path.
pub proof fn law_found(projects: Seq<Seq<u8>>)
    ensures
        found_of(projects).len() == projects.len(),
        found_of(projects).map_values(|d: DiscoveredView| d.project_path).to_multiset()
            == projects.to_multiset(),
        forall|i: int|
            0 <= i < projects.len() ==> (#[trigger] found_of(projects)[i]).target_dir
                == default_target(found_of(projects)[i].project_path),
        forall|i: int, j: int|
            0 <= i < j < projects.len() ==> !path_lt(
                (#[trigger] found_of(projects)[j]).project_path,
                (#[trigger] found_of(projects)[i]).project_path,
            ),
{
    let r = sorted(path_order(), projects);
    law_path_order();
    law_sorted(path_order(), projects);
    assert(found_of(projects).map_values(|d: DiscoveredView| d.project_path) =~= r);
    assert forall|i: int, j: int| 0 <= i < j < projects.len() implies !path_lt(
        (#[trigger] found_of(projects)[j]).project_path,
        (#[trigger] found_of(projects)[i]).project_path,
    ) by {
        assert(!path_order()(r[j], r[i]));
    }
}

/// The directory that is scanned: the canonical form of what was asked for,
/// if it has one.
pub fn resolve_root(raw: &FilePath, canonical: Option<FilePath>) -> (r: FilePath)
    ensures
        r@ == match path_view(canonical) {
            Some(c) => c,
            None => raw@,
        },
{
    match canonical {
        Some(c) => c,
        None => raw.clone(),
    }
}

/// The bytes of the names that discovery knows.
pub proof fn lemma_known_names()
    ensures
        encode_utf8(".git"@) == seq![46u8, 103, 105, 116],
        encode_utf8(".cargo"@) == seq![46u8, 99, 97, 114, 103, 111],
        encode_utf8("target"@) == seq![116u8, 97, 114, 103, 101, 116],
        encode_utf8("Cargo.toml"@) == seq![67u8, 97, 114, 103, 111, 46, 116, 111, 109, 108],
{
    reveal_strlit(".git");
    reveal_strlit(".cargo");
    reveal_strlit("target");
    reveal_strlit("Cargo.toml");
    crate::file_path::law_ascii_bytes(".git"@);
    crate::file_path::law_ascii_bytes(".cargo"@);
    crate::file_path::law_ascii_bytes("target"@);
    crate::file_path::law_ascii_bytes("Cargo.toml"@);
    assert(encode_utf8(".git"@) =~= seq![46u8, 103, 105, 116]);
    assert(encode_utf8(".cargo"@) =~= seq![46u8, 99, 97, 114, 103, 111]);
    assert(encode_utf8("target"@) =~= seq![116u8, 97, 114, 103, 101, 116]);
    assert(encode_utf8("Cargo.toml"@) =~= seq![67u8, 97, 114, 103, 111, 46, 116, 111, 109, 108]);
}

/// Law: below its start a walk leaves out what is called `.git` or `.cargo`, leaves
/// out what is called `target` where a manifest stands beside it, and keeps all else,
/// hidden directories too. Its start is kept whatever it is called.
pub proof fn law_walk_rule(depth: nat, name: Seq<u8>)
    ensures
        rule_for(0, name) == WalkRule::Keep,
        depth > 0 ==> (rule_for(depth, name) == WalkRule::Prune <==> name == seq![
            46u8,
            103,
            105,
            116,
        ] || name == seq![46u8, 99, 97, 114, 103, 111]),
        depth > 0 ==> (rule_for(depth, name) == WalkRule::PruneBesideManifest <==> name == seq![
            116u8,
            97,
            114,
            103,
            101,
            116,
        ]),
{
    lemma_known_names();
    assert(seq![116u8, 97, 114, 103, 101, 116][0] == 116);
    assert(seq![46u8, 103, 105, 116][0] == 46);
    assert(seq![46u8, 99, 97, 114, 103, 111][0] == 46);
}

/// Law: every directory that is no link and holds a manifest is a project, of one kind
/// or the other by whether `target` is in it; nothing else is.
pub proof fn law_projects(v: Visited)
    ensures
        is_project(v) || is_bare_project(v) <==> v.is_dir && !v.is_symlink && v.has_manifest,
        is_project(v) ==> v.has_target,
        is_bare_project(v) ==> !v.has_target,
{
}

/// Law: a project stands in its directory and has its output in `target` below it.
pub proof fn law_by_default(project: Seq<u8>)
    ensures
        by_default(project).project_path == project,
        by_default(project).target_dir == joined(
            project,
            seq![116u8, 97, 114, 103, 101, 116],
        ),
        by_default(project).kind == OutputKind::Target,
{
    lemma_known_names();
}

/// Law: the first walk of a directory is reported with the directory's own path and
/// what the walk recorded, and no walk after it; walks of other directories are still
/// awaited.
pub proof fn law_first_walk_counts(
    s: StreamView,
    i: int,
    walk: Option<Seq<EntryRec>>,
    again: Option<Seq<EntryRec>>,
)
    requires
        0 <= i < s.waiting.len(),
        s.waiting[i],
    ensures
        s.report(StreamStep::Walked(i, walk)) == Some(
            EventView::Measured(measured(s.dirs[i], walk)),
        ),
        s.step(StreamStep::Walked(i, walk)).report(StreamStep::Walked(i, again)) is None,
        s.step(StreamStep::Walked(i, walk)).dirs == s.dirs,
        s.step(StreamStep::Walked(i, walk)).over == s.over,
        s.step(StreamStep::Walked(i, walk)).waiting.len() == s.waiting.len(),
        forall|j: int|
            0 <= j < s.waiting.len() && j != i ==> #[trigger] s.step(
                StreamStep::Walked(i, walk),
            ).waiting[j] == s.waiting[j],
{
}

/// Law: the end is reported with the build cache, once, and not before every directory
/// was measured. A scan that found nothing can end at once.
pub proof fn law_end_waits(s: StreamView, build_cache: Option<EntryView>, i: int)
    ensures
        0 <= i < s.waiting.len() && s.waiting[i] ==> s.report(
            StreamStep::CacheRead(build_cache),
        ) is None && s.step(StreamStep::CacheRead(build_cache)).over == s.over,
        s.over ==> s.report(StreamStep::CacheRead(build_cache)) is None,
        !s.over && s.waiting.len() == 0 ==> s.report(StreamStep::CacheRead(build_cache)) == Some(
            EventView::Done(build_cache),
        ),
        s.report(StreamStep::CacheRead(build_cache)) is Some ==> s.step(
            StreamStep::CacheRead(build_cache),
        ).over && s.report(StreamStep::CacheRead(build_cache)) == Some(
            EventView::Done(build_cache),
        ),
{
}

/// Law: at its start a scan awaits all directories that were found, in their order.
pub proof fn law_started(found: Seq<DiscoveredView>)
    ensures
        StreamView::started(found).dirs.len() == found.len(),
        StreamView::started(found).waiting.len() == found.len(),
        !StreamView::started(found).over,
        forall|i: int|
            0 <= i < found.len() ==> #[trigger] StreamView::started(found).dirs[i]
                == found[i].target_dir,
        forall|i: int| 0 <= i < found.len() ==> #[trigger] StreamView::started(found).waiting[i],
{
}

} // verus!
