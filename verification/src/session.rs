//! One round of the program: what the events of a scan and of the keyboard
//! change.
use vstd::prelude::*;

use crate::app::{lemma_measure_all_keeps, pending_entry, App, AppView, Moment};
use crate::app_laws::{
    identities, law_apply_measurements, law_begin_scan, law_finish_scan, law_set_discovered,
    well_formed,
};
use crate::file_path::{lossy_text, path_view, paths, FilePath};
use crate::order::{law_table_order, table_order};
use crate::poll::{apply_batches, batches_view, Poller, PollerView, LAST_MOMENT};
use crate::scan::discover::{events_view, scan_reports, EventView, ScanEvent};
use crate::scan::{
    discovered_view, entry_view, measurements_view, DiscoveredView, EntryView, Measurement,
    MeasurementView, Timestamp,
};
use crate::seqs::law_sorted;
use crate::text::{push_str, string_of};
use crate::ui::input::{
    can_follow, handle_key, key_effect, law_keys_keep_well_formed, Action, ActionView, KeyEvent,
};

verus! {

/// What is said of a directory to scan that is none.
pub open spec fn root_error(root: Seq<u8>) -> Seq<char> {
    "scan root is not a directory: "@ + lossy_text(root)
}

/// Rejects a directory to scan that is none.
pub fn check_root(root: &FilePath, is_dir: bool) -> (r: Result<(), String>)
    ensures
        r is Ok <==> is_dir,
        r matches Err(e) ==> e@ == root_error(root@),
{
    if is_dir {
        return Ok(());
    }
    let mut out: Vec<char> = Vec::new();
    push_str(&mut out, "scan root is not a directory: ");
    push_str(&mut out, root.to_text().as_str());
    assert(out@ =~= root_error(root@));
    Err(string_of(out.as_slice()))
}

/// How long to wait for a key, in milliseconds: a sixtieth of a second while
/// a scan runs, a tenth otherwise.
pub open spec fn budget_of(v: AppView) -> u64 {
    if v.scanning {
        16
    } else {
        100
    }
}

/// Decides how long to wait for a key.
pub fn frame_budget(app: &App) -> (r: u64)
    ensures
        r == budget_of(app@),
{
    if app.scanning {
        16
    } else {
        100
    }
}

/// What a `Session` says.
#[verifier::ext_equal]
pub struct SessionView {
    pub app: AppView,
    pub poller: PollerView,
    pub listening: bool,
}

/// What one event of a scan changes. At the end of the scan the poller starts
/// anew from what it measured.
pub open spec fn event_effect(
    s: SessionView,
    e: EventView,
    now: Moment,
    wall: Timestamp,
) -> SessionView {
    match e {
        EventView::Discovered(found) => SessionView { app: s.app.set_discovered(found), ..s },
        EventView::Measured(m) => SessionView { app: s.app.apply_measurements(seq![m]), ..s },
        EventView::Done(build_cache) => {
            let app = s.app.finish_scan(build_cache);
            SessionView { app, poller: PollerView::reset(app, now, wall), listening: false }
        },
    }
}

/// What the events of a scan change, one after the other.
pub open spec fn events_effect(
    s: SessionView,
    es: Seq<EventView>,
    now: Moment,
    wall: Timestamp,
) -> SessionView
    decreases es.len(),
{
    if es.len() == 0 {
        s
    } else {
        event_effect(events_effect(s, es.drop_last(), now, wall), es.last(), now, wall)
    }
}

impl SessionView {
    /// The session after the events of its scan, if it listens to one.
    pub open spec fn drain(self, es: Seq<EventView>, now: Moment, wall: Timestamp) -> SessionView {
        if self.listening {
            events_effect(self, es, now, wall)
        } else {
            self
        }
    }

    /// The batches that still count after the session has turned into `after`: none
    /// from before the end of a scan.
    pub open spec fn current(
        self,
        after: SessionView,
        batches: Seq<Seq<MeasurementView>>,
    ) -> Seq<Seq<MeasurementView>> {
        if self.listening && !after.listening {
            Seq::empty()
        } else {
            batches
        }
    }

    /// The poller after one round, before the next batch is started.
    pub open spec fn polled(
        self,
        es: Seq<EventView>,
        batches: Seq<Seq<MeasurementView>>,
        now: Moment,
        wall: Timestamp,
    ) -> PollerView {
        let s = self.drain(es, now, wall);
        s.poller.receive_all(self.current(s, batches), now)
    }

    /// The session after one round.
    pub open spec fn tick(
        self,
        es: Seq<EventView>,
        batches: Seq<Seq<MeasurementView>>,
        now: Moment,
        wall: Timestamp,
    ) -> SessionView {
        let s = self.drain(es, now, wall);
        SessionView {
            app: apply_batches(s.app, self.current(s, batches)),
            poller: self.polled(es, batches, now, wall).start(now),
            ..s
        }
    }

    /// The session after a key press. A rescan starts at once.
    pub open spec fn press(self, key: KeyEvent, now: Moment) -> SessionView {
        let (app, action) = key_effect(self.app, key);
        if action == ActionView::Rescan {
            SessionView { app: app.begin_scan(now), listening: true, ..self }
        } else {
            SessionView { app, ..self }
        }
    }
}

/// Takes over one event of a scan. Returns whether the scan is over.
pub fn handle_event(
    app: &mut App,
    poller: &mut Poller,
    event: ScanEvent,
    now: Moment,
    wall: Timestamp,
) -> (done: bool)
    requires
        event is Done ==> now <= LAST_MOMENT && old(app).entries@.len() < usize::MAX,
    ensures
        (SessionView { app: final(app)@, poller: final(poller)@, listening: !done })
            == event_effect(
            SessionView { app: old(app)@, poller: old(poller)@, listening: true },
            event@,
            now,
            wall,
        ),
{
    match event {
        ScanEvent::Discovered(found) => {
            app.set_discovered(found);
            false
        },
        ScanEvent::Measured(m) => {
            let mut one = Vec::new();
            one.push(m);
            assert(measurements_view(one@) =~= seq![m@]);
            app.apply_measurements(one.as_slice());
            false
        },
        ScanEvent::Done { build_cache } => {
            let ghost before = SessionView { app: app@, poller: poller@, listening: true };
            let ghost e = event@;
            app.finish_scan(build_cache);
            proof {
                lemma_event_rows(before, e, now, wall);
                assert(app.entries@.len() == app@.entries.len());
            }
            poller.reset(app, now, wall);
            true
        },
    }
}

/// How many rows there are after an event.
proof fn lemma_event_rows(s: SessionView, e: EventView, now: Moment, wall: Timestamp)
    ensures
        event_effect(s, e, now, wall).app.entries.len() == match e {
            EventView::Discovered(found) => found.len(),
            _ => s.app.entries.len(),
        },
{
    law_table_order(s.app.sort);
    match e {
        EventView::Discovered(found) => {
            law_sorted(
                table_order(s.app.sort),
                found.map_values(|d: DiscoveredView| pending_entry(d)),
            );
        },
        EventView::Measured(m) => {
            lemma_measure_all_keeps(s.app, seq![m]);
            law_sorted(table_order(s.app.sort), s.app.measure_all(seq![m]).entries);
        },
        EventView::Done(_) => {
            law_sorted(table_order(s.app.sort), s.app.entries);
        },
    }
}

/// Whether an event finds no more rows than can be numbered.
pub open spec fn fits(e: EventView) -> bool {
    e matches EventView::Discovered(found) ==> found.len() < usize::MAX
}

/// Whether all events of a list do.
pub open spec fn all_fit(es: Seq<EventView>) -> bool {
    forall|i: int| 0 <= i < es.len() ==> fits(#[trigger] es[i])
}

/// A run of the program: the table, when its rows are measured again, and
/// whether a scan is being listened to.
pub struct Session {
    pub app: App,
    pub poller: Poller,
    pub listening: bool,
}

impl View for Session {
    type V = SessionView;

    open spec fn view(&self) -> SessionView {
        SessionView { app: self.app@, poller: self.poller@, listening: self.listening }
    }
}

/// What is to be done in a round besides drawing.
#[derive(Debug)]
pub struct Round {
    /// The directories to measure, as one batch.
    pub measure: Vec<FilePath>,
    /// How long to wait for a key, in milliseconds.
    pub budget: u64,
}

impl Session {
    /// A run that starts with a scan of `root`.
    pub fn new(root: FilePath, build_cache_path: Option<FilePath>, now: Moment) -> (r: Session)
        ensures
            r@ == (SessionView {
                app: AppView::initial(root@, path_view(build_cache_path), now),
                poller: PollerView { dirs: Seq::empty(), in_flight: false },
                listening: true,
            }),
    {
        Session {
            app: App::new(root, build_cache_path, now),
            poller: Poller::new(),
            listening: true,
        }
    }

    /// Takes over the events of the scan that is being listened to.
    fn drain(&mut self, events: Vec<ScanEvent>, now: Moment, wall: Timestamp)
        requires
            now <= LAST_MOMENT,
            old(self).app.entries@.len() < usize::MAX,
            all_fit(events_view(events@)),
        ensures
            final(self)@ == old(self)@.drain(events_view(events@), now, wall),
    {
        if !self.listening {
            return;
        }
        let ghost start = self@;
        let ghost all = events_view(events@);
        assert(all.take(0) =~= Seq::<EventView>::empty());
        let mut over: bool = false;
        let mut left = events;
        let n: usize = left.len();
        let mut i: usize = 0;
        while left.len() > 0
            invariant
                now <= LAST_MOMENT,
                all_fit(all),
                n == all.len(),
                i + left@.len() == n,
                events_view(left@) == all.skip(i as int),
                self.listening,
                self.app.entries@.len() < usize::MAX,
                (SessionView { listening: !over, ..self@ }) == events_effect(
                    start,
                    all.take(i as int),
                    now,
                    wall,
                ),
            decreases left@.len(),
        {
            let ghost before = SessionView { listening: !over, ..self@ };
            let ghost e = all[i as int];
            assert(all.take(i + 1).drop_last() =~= all.take(i as int));
            assert(all.take(i + 1).last() == e);
            assert(events_view(left@)[0] == left@[0]@);
            assert(e == left@[0]@);
            proof {
                lemma_event_rows(before, e, now, wall);
                assert(fits(e));
            }
            let ghost queued = left@;
            let event = left.remove(0);
            assert(events_view(left@) =~= all.skip(i + 1)) by {
                assert forall|k: int| 0 <= k < left@.len() implies #[trigger] events_view(left@)[k]
                    == all.skip(i + 1)[k] by {
                    assert(left@[k] == queued[k + 1]);
                    assert(events_view(queued)[k + 1] == all.skip(i as int)[k + 1]);
                }
            }
            let done: bool = handle_event(&mut self.app, &mut self.poller, event, now, wall);
            over = over || done;
            assert(self.app.entries@.len() == self.app@.entries.len());
            i = i + 1;
        }
        assert(all.take(n as int) =~= all);
        self.listening = !over;
    }

    /// One round: takes over the events of the scan, then the batches of
    /// measurements that have arrived, and says what is to be done next.
    pub fn tick(
        &mut self,
        events: Vec<ScanEvent>,
        arrived: &Vec<Vec<Measurement>>,
        now: Moment,
        wall: Timestamp,
    ) -> (r: Round)
        requires
            now <= LAST_MOMENT,
            old(self).app.entries@.len() < usize::MAX,
            all_fit(events_view(events@)),
        ensures
            final(self)@ == old(self)@.tick(
                events_view(events@),
                batches_view(arrived@),
                now,
                wall,
            ),
            paths(r.measure@) == old(self)@.polled(
                events_view(events@),
                batches_view(arrived@),
                now,
                wall,
            ).batch(now),
            r.budget == budget_of(final(self)@.app),
    {
        let listened: bool = self.listening;
        self.drain(events, now, wall);
        let measure = if listened && !self.listening {
            let none: Vec<Vec<Measurement>> = Vec::new();
            assert(batches_view(none@) =~= Seq::<Seq<MeasurementView>>::empty());
            self.poller.poll(&mut self.app, &none, now)
        } else {
            self.poller.poll(&mut self.app, arrived, now)
        };
        Round { measure, budget: frame_budget(&self.app) }
    }

    /// Handles a key press. After a rescan the session listens to a new scan.
    pub fn press(&mut self, key: KeyEvent, now: Moment) -> (r: Action)
        requires
            can_follow(old(self)@.app, key),
        ensures
            final(self)@ == old(self)@.press(key, now),
            r@ == key_effect(old(self)@.app, key).1,
    {
        let action = handle_key(&mut self.app, key);
        if let Action::Rescan = action {
            self.app.begin_scan(now);
            self.listening = true;
        }
        action
    }
}

/// Law: while a scan runs the table has one row for each output directory that
/// was found; no measurement adds a row or takes one away.
pub proof fn law_scan_keeps_rows(
    s: SessionView,
    found: Seq<DiscoveredView>,
    ms: Seq<MeasurementView>,
    now: Moment,
    wall: Timestamp,
)
    requires
        well_formed(s.app),
        found.len() <= usize::MAX,
    ensures
        ({
            let end = events_effect(s, scan_reports(found, ms), now, wall);
            &&& well_formed(end.app)
            &&& identities(end.app.entries).to_multiset() == found.to_multiset()
            &&& end.app.scanning
            &&& end.poller == s.poller
            &&& end.listening == s.listening
        }),
    decreases ms.len(),
{
    let es = scan_reports(found, ms);
    if ms.len() == 0 {
        assert(es =~= seq![EventView::Discovered(found)]);
        assert(es.drop_last() =~= Seq::<EventView>::empty());
        assert(events_effect(s, es.drop_last(), now, wall) == s);
        law_set_discovered(s.app, found);
    } else {
        let d = ms.drop_last();
        law_scan_keeps_rows(s, found, d, now, wall);
        assert(es.drop_last() =~= scan_reports(found, d));
        assert(es.last() == EventView::Measured(ms.last()));
        let before = events_effect(s, es.drop_last(), now, wall);
        law_apply_measurements(before.app, seq![ms.last()]);
        lemma_measure_all_keeps(before.app, seq![ms.last()]);
    }
}

/// Law: the end of a scan keeps the rows, ends the scanning, and starts the
/// poller anew from them.
pub proof fn law_scan_ends(
    s: SessionView,
    found: Seq<DiscoveredView>,
    ms: Seq<MeasurementView>,
    build_cache: Option<EntryView>,
    now: Moment,
    wall: Timestamp,
)
    requires
        well_formed(s.app),
        found.len() <= usize::MAX,
    ensures
        ({
            let before = events_effect(s, scan_reports(found, ms), now, wall);
            let end = events_effect(
                s,
                scan_reports(found, ms).push(EventView::Done(build_cache)),
                now,
                wall,
            );
            &&& well_formed(end.app)
            &&& end.app.entries == before.app.entries
            &&& end.app.build_cache == build_cache
            &&& !end.app.scanning
            &&& end.poller == PollerView::reset(end.app, now, wall)
            &&& !end.listening
        }),
{
    let es = scan_reports(found, ms).push(EventView::Done(build_cache));
    law_scan_keeps_rows(s, found, ms, now, wall);
    assert(es.drop_last() =~= scan_reports(found, ms));
    let before = events_effect(s, es.drop_last(), now, wall);
    law_finish_scan(before.app, build_cache);
}

/// Events keep the state well formed.
proof fn lemma_events_keep_well_formed(
    s: SessionView,
    es: Seq<EventView>,
    now: Moment,
    wall: Timestamp,
)
    requires
        well_formed(s.app),
        all_fit(es),
    ensures
        well_formed(events_effect(s, es, now, wall).app),
    decreases es.len(),
{
    if es.len() > 0 {
        let d = es.drop_last();
        assert forall|i: int| 0 <= i < d.len() implies fits(#[trigger] d[i]) by {
            assert(d[i] == es[i]);
        }
        lemma_events_keep_well_formed(s, d, now, wall);
        let before = events_effect(s, d, now, wall);
        assert(fits(es[es.len() - 1]));
        match es.last() {
            EventView::Discovered(found) => {
                law_set_discovered(before.app, found);
            },
            EventView::Measured(m) => {
                law_apply_measurements(before.app, seq![m]);
            },
            EventView::Done(build_cache) => {
                law_finish_scan(before.app, build_cache);
            },
        }
    }
}

/// Batches keep the state well formed.
proof fn lemma_batches_keep_well_formed(v: AppView, batches: Seq<Seq<MeasurementView>>)
    requires
        well_formed(v),
    ensures
        well_formed(apply_batches(v, batches)),
    decreases batches.len(),
{
    if batches.len() > 0 {
        lemma_batches_keep_well_formed(v, batches.drop_last());
        law_apply_measurements(apply_batches(v, batches.drop_last()), batches.last());
    }
}

/// Law: whatever a scan reports, whatever is measured and whichever keys are
/// pressed, the state stays well formed.
pub proof fn law_session_keeps_well_formed(
    s: SessionView,
    es: Seq<EventView>,
    batches: Seq<Seq<MeasurementView>>,
    key: KeyEvent,
    now: Moment,
    wall: Timestamp,
)
    requires
        well_formed(s.app),
        all_fit(es),
    ensures
        well_formed(s.tick(es, batches, now, wall).app),
        well_formed(s.press(key, now).app),
{
    lemma_events_keep_well_formed(s, es, now, wall);
    let after = s.drain(es, now, wall);
    lemma_batches_keep_well_formed(after.app, s.current(after, batches));
    law_keys_keep_well_formed(s.app, key);
    law_begin_scan(key_effect(s.app, key).0, now);
}

/// Law: batches that arrive with the end of a scan change nothing: the poller
/// starts from what the scan measured.
pub proof fn law_scan_end_drops_batches(
    s: SessionView,
    es: Seq<EventView>,
    batches: Seq<Seq<MeasurementView>>,
    now: Moment,
    wall: Timestamp,
)
    requires
        s.listening,
        !events_effect(s, es, now, wall).listening,
    ensures
        s.tick(es, batches, now, wall) == s.tick(es, Seq::empty(), now, wall),
        s.tick(es, batches, now, wall).app == events_effect(s, es, now, wall).app,
{
}

/// Law: the wait for a key is sixteen milliseconds while a scan runs and a hundred
/// otherwise, and a directory to scan that is none is named in the error.
pub proof fn law_waits(v: AppView, root: Seq<u8>)
    ensures
        v.scanning ==> budget_of(v) == 16,
        !v.scanning ==> budget_of(v) == 100,
        root_error(root) == "scan root is not a directory: "@ + lossy_text(root),
{
}

/// Law: what a scan finds fills the table, what it measures is taken over at once,
/// and its end ends the listening and starts the poller from the table.
pub proof fn law_events(
    s: SessionView,
    found: Seq<DiscoveredView>,
    m: MeasurementView,
    build_cache: Option<EntryView>,
    now: Moment,
    wall: Timestamp,
)
    ensures
        event_effect(s, EventView::Discovered(found), now, wall) == (SessionView {
            app: s.app.set_discovered(found),
            ..s
        }),
        event_effect(s, EventView::Measured(m), now, wall) == (SessionView {
            app: s.app.apply_measurements(seq![m]),
            ..s
        }),
        ({
            let end = event_effect(s, EventView::Done(build_cache), now, wall);
            &&& !end.listening
            &&& end.app == s.app.finish_scan(build_cache)
            &&& end.poller == PollerView::reset(end.app, now, wall)
        }),
{
}

/// Law: events are taken over one after the other.
pub proof fn law_events_in_order(
    s: SessionView,
    es: Seq<EventView>,
    e: EventView,
    now: Moment,
    wall: Timestamp,
)
    ensures
        events_effect(s, Seq::empty(), now, wall) == s,
        events_effect(s, es.push(e), now, wall) == event_effect(
            events_effect(s, es, now, wall),
            e,
            now,
            wall,
        ),
{
    assert(es.push(e).drop_last() =~= es);
}

/// Law: a session that listens to no scan takes over no events; one that does, and
/// whose scan goes on, takes over all of them and then all batches. Either way what
/// is due is measured next unless a batch is under way.
pub proof fn law_round(
    s: SessionView,
    es: Seq<EventView>,
    batches: Seq<Seq<MeasurementView>>,
    now: Moment,
    wall: Timestamp,
)
    ensures
        !s.listening ==> {
            let w = s.tick(es, batches, now, wall);
            &&& w.app == apply_batches(s.app, batches)
            &&& w.poller == s.poller.receive_all(batches, now).start(now)
            &&& !w.listening
        },
        s.listening && events_effect(s, es, now, wall).listening ==> {
            let t = events_effect(s, es, now, wall);
            let w = s.tick(es, batches, now, wall);
            &&& w.app == apply_batches(t.app, batches)
            &&& w.poller == t.poller.receive_all(batches, now).start(now)
            &&& w.listening
        },
        s.listening && !events_effect(s, es, now, wall).listening ==> {
            let t = events_effect(s, es, now, wall);
            let w = s.tick(es, batches, now, wall);
            &&& w.app == t.app
            &&& w.poller == t.poller.start(now)
            &&& !w.listening
        },
{
}

/// Law: `r` starts a scan that is listened to from its moment on; any other key
/// leaves the listening and the poller alone.
pub proof fn law_rescan(s: SessionView, key: KeyEvent, now: Moment)
    requires
        !s.app.filtering,
    ensures
        key.code == crate::ui::input::KeyCode::Char('r') ==> {
            let w = s.press(key, now);
            &&& w.listening
            &&& w.app.scanning
            &&& w.app.loading_start == now
            &&& !w.app.navigated
            &&& w.app.entries == s.app.entries
            &&& w.poller == s.poller
        },
        key.code != crate::ui::input::KeyCode::Char('r') ==> {
            let w = s.press(key, now);
            &&& w.listening == s.listening
            &&& w.poller == s.poller
            &&& w.app == key_effect(s.app, key).0
        },
{
}

} // verus!
