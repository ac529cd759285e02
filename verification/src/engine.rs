//! The engine: the state that the whole profiler shares, as a value that its
//! user owns, and the mathematical model of every operation on it.

use crate::clock::{distance, tick_after, tick_distance, TickSource, HALF_RANGE};
use crate::frame::{Frame, FrameView};
use crate::recorder::{ThreadContext, ThreadView};
use crate::registry::{Registry, RegistryView, NO_TOKEN};
use crate::report::{csv_report, frame_views, html_report};
use vstd::prelude::*;

verus! {

/// What an engine is made with.
#[derive(Clone, Copy, Debug, PartialEq, Eq, Structural)]
pub struct Config {
    /// Ticks of the clock in one second; zero if that is not known.
    pub ticks_per_second: u64,
    /// Events that one thread can hold between two flips.
    pub buffer_capacity: usize,
    /// Frames that are kept for reports.
    pub history_capacity: usize,
}

/// Counters of what went wrong. None of them wraps: each stays at the
/// largest value once it is reached.
#[derive(Clone, Copy, Debug, PartialEq, Eq, Structural)]
pub struct Diagnostics {
    /// Calls that made no sense where they were made.
    pub usage_errors: u64,
    /// Events that a full buffer lost, and reports that could not be
    /// written.
    pub resource_errors: u64,
    /// Conversions that failed for want of a clock rate.
    pub calibration_errors: u64,
}

/// Whether flips come by themselves.
#[derive(Clone, Copy, Debug, PartialEq, Eq, Structural)]
pub enum Scheduler {
    /// Only on request.
    Idle,
    /// Also whenever the period has passed.
    AutoFlipping { period_ms: u32 },
}

/// An error that a call hands back to its caller.
#[derive(Clone, Copy, Debug, PartialEq, Eq, Structural)]
pub enum ProfileError {
    /// The engine has been shut down.
    AfterShutdown,
    /// The thread is registered already.
    DoubleRegistration,
    /// The thread is not registered.
    UnknownThread,
    /// The clock rate is not known.
    Calibration,
}

/// A report that is to be written when a frame is a spike.
pub struct DumpRequest {
    pub(crate) html: String,
    pub(crate) csv: String,
    pub(crate) threshold: u64,
}

/// A request for a report as a mathematical value.
pub struct DumpView {
    pub html: Seq<char>,
    pub csv: Seq<char>,
    /// Ticks that the root calls of a thread must exceed.
    pub threshold: u64,
}

impl View for DumpRequest {
    type V = DumpView;

    open(crate) spec fn view(&self) -> DumpView {
        DumpView { html: self.html@, csv: self.csv@, threshold: self.threshold }
    }
}

/// A file for the caller to write.
#[derive(Debug)]
pub struct ReportFile {
    pub path: String,
    pub bytes: Vec<u8>,
}

/// A file as a mathematical value.
pub struct ReportView {
    pub path: Seq<char>,
    pub bytes: Seq<u8>,
}

impl View for ReportFile {
    type V = ReportView;

    open spec fn view(&self) -> ReportView {
        ReportView { path: self.path@, bytes: self.bytes@ }
    }
}

/// The views of a sequence of files.
pub open spec fn report_views(files: Seq<ReportFile>) -> Seq<ReportView> {
    Seq::new(files.len(), |i: int| files[i]@)
}

/// The views of a sequence of thread contexts.
pub open spec fn thread_views(threads: Seq<ThreadContext>) -> Seq<ThreadView> {
    Seq::new(threads.len(), |i: int| threads[i]@)
}

/// One more, but never beyond the largest value.
pub open spec fn bump(n: u64) -> u64 {
    if n < u64::MAX {
        (n + 1) as u64
    } else {
        n
    }
}

/// The least index from `from` on of a thread with this identifier that has
/// not ended, or `-1`.
pub open spec fn find_live(threads: Seq<ThreadView>, id: u64, from: int) -> int
    decreases threads.len() - from,
{
    if from < 0 || from >= threads.len() {
        -1
    } else if threads[from].id == id && !threads[from].exited {
        from
    } else {
        find_live(threads, id, from + 1)
    }
}

/// Whether no two threads that have not ended share an identifier.
pub open spec fn one_thread_per_id(threads: Seq<ThreadView>) -> bool {
    forall|i: int, j: int|
        0 <= i < j < threads.len() && !(#[trigger] threads[i]).exited && !(
        #[trigger] threads[j]).exited ==> threads[i].id != threads[j].id
}

/// The threads that go on after a flip: those that have not ended, each
/// with an empty buffer.
pub open spec fn live_after_flip(threads: Seq<ThreadView>) -> Seq<ThreadView>
    decreases threads.len(),
{
    if threads.len() == 0 {
        Seq::empty()
    } else if threads.last().exited {
        live_after_flip(threads.drop_last())
    } else {
        live_after_flip(threads.drop_last()).push(threads.last().after_flip())
    }
}

/// The history with `frame` as its newest entry. A history that is full
/// gives up its oldest frame.
pub open spec fn remember(history: Seq<FrameView>, frame: FrameView, limit: int) -> Seq<FrameView> {
    if history.len() > 0 && history.len() >= limit {
        history.drop_first().push(frame)
    } else {
        history.push(frame)
    }
}

/// The files that a dump makes of the frames in `history`: the page if
/// `html` is not empty, then the table if `csv` is not empty.
pub open spec fn reports(
    html: Seq<char>,
    csv: Seq<char>,
    history: Seq<FrameView>,
    registry: RegistryView,
    per_second: u64,
) -> Seq<ReportView> {
    let page = if html.len() > 0 {
        seq![ReportView { path: html, bytes: html_report(history, registry, per_second) }]
    } else {
        Seq::empty()
    };
    if csv.len() > 0 {
        page.push(ReportView { path: csv, bytes: csv_report(history, registry) })
    } else {
        page
    }
}

/// The engine as a mathematical value.
pub struct EngineView {
    /// False once the engine has been shut down.
    pub alive: bool,
    pub config: Config,
    pub registry: RegistryView,
    /// The threads, in the order in which they were first seen.
    pub threads: Seq<ThreadView>,
    /// The tick at which the present frame opened.
    pub frame_start: u64,
    /// The ticks of the present frame that have been seen to pass.
    pub elapsed: u64,
    /// The number of flips so far.
    pub frame_index: u64,
    pub scheduler: Scheduler,
    /// The report that waits for a spike.
    pub pending: Option<DumpView>,
    /// The frames kept, oldest first.
    pub history: Seq<FrameView>,
    pub diagnostics: Diagnostics,
}

impl EngineView {
    /// A new engine whose first frame opens at `start`: alive, idle, all
    /// groups to come enabled, and nothing recorded.
    pub open spec fn fresh(config: Config, start: u64) -> EngineView {
        EngineView {
            alive: true,
            config,
            registry: RegistryView::empty(true),
            threads: Seq::empty(),
            frame_start: start,
            elapsed: 0,
            frame_index: 0,
            scheduler: Scheduler::Idle,
            pending: None,
            history: Seq::empty(),
            diagnostics: Diagnostics { usage_errors: 0, resource_errors: 0, calibration_errors: 0 },
        }
    }

    /// The invariant of an engine: the registry is well formed, the frame
    /// is shorter than half the range of the clock, every buffer is within
    /// its capacity and in the order of its timestamps, no two threads that
    /// have not ended share an identifier, and no more frames are kept than
    /// the history allows (one even where it allows none).
    pub open spec fn wf(self) -> bool {
        &&& self.registry.wf()
        &&& self.elapsed < HALF_RANGE
        &&& forall|i: int|
            0 <= i < self.threads.len() ==> (#[trigger] self.threads[i]).buffer_ok(
                self.config.buffer_capacity as int,
                self.elapsed as int,
            )
        &&& one_thread_per_id(self.threads)
        &&& self.history.len() <= self.config.history_capacity || self.history.len() <= 1
    }

    /// The tick that the engine has reached.
    pub open spec fn now(self) -> u64 {
        tick_after(self.frame_start, self.elapsed) as u64
    }

    /// The engine after it has seen the clock at `now`. Time within the
    /// frame only moves forward: a tick that lies behind what was seen, or
    /// behind the start of the frame, changes nothing.
    pub open spec fn observe(self, now: u64) -> EngineView {
        let d = distance(self.frame_start, now);
        if d < HALF_RANGE && d > self.elapsed {
            EngineView { elapsed: d as u64, ..self }
        } else {
            self
        }
    }

    /// The engine with one more usage error counted.
    pub open spec fn usage_error(self) -> EngineView {
        EngineView {
            diagnostics: Diagnostics {
                usage_errors: bump(self.diagnostics.usage_errors),
                ..self.diagnostics
            },
            ..self
        }
    }

    /// The engine with one more resource error counted.
    pub open spec fn resource_error(self) -> EngineView {
        EngineView {
            diagnostics: Diagnostics {
                resource_errors: bump(self.diagnostics.resource_errors),
                ..self.diagnostics
            },
            ..self
        }
    }

    /// The engine with one more calibration error counted.
    pub open spec fn calibration_error(self) -> EngineView {
        EngineView {
            diagnostics: Diagnostics {
                calibration_errors: bump(self.diagnostics.calibration_errors),
                ..self.diagnostics
            },
            ..self
        }
    }

    /// The engine after a request for a token, and the token. After
    /// shutdown the request is a usage error and gets `NO_TOKEN`.
    pub open spec fn token_requested(self, group: Seq<char>, name: Seq<char>, color: u32) -> (
        EngineView,
        u64,
    ) {
        if !self.alive {
            (self.usage_error(), NO_TOKEN)
        } else {
            let (registry, token) = self.registry.register(group, name, color);
            (EngineView { registry, ..self }, token)
        }
    }

    /// The engine after all groups are switched to `on`. After shutdown the
    /// call is a usage error.
    pub open spec fn groups_switched(self, on: bool) -> EngineView {
        if !self.alive {
            self.usage_error()
        } else {
            EngineView { registry: self.registry.set_enable_all(on), ..self }
        }
    }

    /// Whether the registration of thread `id` is refused, and why.
    pub open spec fn creation_error(self, id: u64) -> Option<ProfileError> {
        if !self.alive {
            Some(ProfileError::AfterShutdown)
        } else if find_live(self.threads, id, 0) >= 0 {
            Some(ProfileError::DoubleRegistration)
        } else {
            None
        }
    }

    /// The engine after thread `id` was registered under `name`. A refused
    /// registration is a usage error and registers nothing.
    pub open spec fn thread_created(self, id: u64, name: Seq<char>) -> EngineView {
        if self.creation_error(id) is Some {
            self.usage_error()
        } else {
            EngineView { threads: self.threads.push(ThreadView::fresh(id, name)), ..self }
        }
    }

    /// Whether the end of thread `id` is refused, and why.
    pub open spec fn exit_error(self, id: u64) -> Option<ProfileError> {
        if !self.alive {
            Some(ProfileError::AfterShutdown)
        } else if find_live(self.threads, id, 0) < 0 {
            Some(ProfileError::UnknownThread)
        } else {
            None
        }
    }

    /// The engine after thread `id` ended. Its events stay until the next
    /// flip has taken them. A refused call is a usage error.
    pub open spec fn thread_exited(self, id: u64) -> EngineView {
        if self.exit_error(id) is Some {
            self.usage_error()
        } else {
            let i = find_live(self.threads, id, 0);
            EngineView {
                threads: self.threads.update(i, ThreadView { exited: true, ..self.threads[i] }),
                ..self
            }
        }
    }

    /// Whether the groups are switched on. While they are off, enter and
    /// leave keep the stacks in step and do nothing else.
    pub open spec fn switched_on(self) -> bool {
        self.registry.switched_on()
    }

    /// The engine with the scope of `token` opened on thread `id` and
    /// nothing logged, counted or seen of the clock. A thread that is not
    /// registered is registered without a name.
    pub open spec fn entered_silently(self, id: u64, token: u64, now: u64) -> EngineView {
        let found = find_live(self.threads, id, 0);
        let threads = if found >= 0 {
            self.threads
        } else {
            self.threads.push(ThreadView::fresh(id, Seq::empty()))
        };
        let i = if found >= 0 {
            found
        } else {
            self.threads.len() as int
        };
        let t = threads[i].enter(
            token,
            now,
            self.elapsed,
            false,
            self.config.buffer_capacity as int,
        );
        EngineView { threads: threads.update(i, t), ..self }
    }

    /// The engine after thread `id` entered the scope of `token` at tick
    /// `now`.
    ///
    /// While the groups are switched off the call records nothing and counts
    /// nothing: on an engine that is alive it opens the scope, so that the
    /// leave that follows finds it, and after shutdown it does nothing.
    ///
    /// While they are on: a thread that is not registered is registered
    /// without a name; the scope is opened in any case; the event is logged
    /// if the token is known. An event that the full buffer loses is a
    /// resource error, a token that is not known a usage error. After
    /// shutdown the call is a usage error and nothing else.
    pub open spec fn entered(self, id: u64, token: u64, now: u64) -> EngineView {
        if !self.switched_on() {
            if self.alive {
                self.entered_silently(id, token, now)
            } else {
                self
            }
        } else if !self.alive {
            self.usage_error()
        } else {
            let e = self.observe(now);
            let found = find_live(e.threads, id, 0);
            let threads = if found >= 0 {
                e.threads
            } else {
                e.threads.push(ThreadView::fresh(id, Seq::empty()))
            };
            let i = if found >= 0 {
                found
            } else {
                e.threads.len() as int
            };
            let records = e.registry.records(token);
            let capacity = e.config.buffer_capacity as int;
            let t = threads[i].enter(token, now, e.elapsed, records, capacity);
            let e2 = EngineView { threads: threads.update(i, t), ..e };
            let e3 = if threads[i].enter_loses(records, capacity) {
                e2.resource_error()
            } else {
                e2
            };
            if e.registry.knows(token) {
                e3
            } else {
                e3.usage_error()
            }
        }
    }

    /// Whether a leave of thread `id` finds a scope to close.
    pub open spec fn can_leave(self, id: u64) -> bool {
        let i = find_live(self.threads, id, 0);
        self.alive && i >= 0 && self.threads[i].stack.len() > 0
    }

    /// The engine with the innermost scope of thread `id` closed, if there
    /// is one, and nothing logged, counted or seen of the clock.
    pub open spec fn left_silently(self, id: u64) -> EngineView {
        let i = find_live(self.threads, id, 0);
        if i >= 0 && self.threads[i].stack.len() > 0 {
            let t = self.threads[i].leave(self.elapsed, false, self.config.buffer_capacity as int);
            EngineView { threads: self.threads.update(i, t), ..self }
        } else {
            self
        }
    }

    /// The engine after thread `id` left its innermost scope at tick `now`.
    ///
    /// While the groups are switched off the call records nothing and counts
    /// nothing, whatever the stack holds: it closes the innermost scope if
    /// there is one. An enter that was logged before the switch then stays
    /// without its leave, and the flip closes the call and marks it as
    /// spanning.
    ///
    /// While they are on: the leave is logged if the enter was. An event
    /// that the full buffer loses is a resource error. A leave that finds no
    /// scope is a usage error and nothing else.
    pub open spec fn left(self, id: u64, now: u64) -> EngineView {
        if !self.switched_on() {
            self.left_silently(id)
        } else if !self.can_leave(id) {
            self.usage_error()
        } else {
            let e = self.observe(now);
            let i = find_live(e.threads, id, 0);
            let capacity = e.config.buffer_capacity as int;
            let e2 = EngineView {
                threads: e.threads.update(i, e.threads[i].leave(e.elapsed, true, capacity)),
                ..e
            };
            if e.threads[i].leave_loses(true, capacity) {
                e2.resource_error()
            } else {
                e2
            }
        }
    }

    /// The engine after automatic flips were asked for. Asking again
    /// replaces the period. After shutdown the call is a usage error.
    pub open spec fn auto_flip_started(self, period_ms: u32) -> EngineView {
        if !self.alive {
            self.usage_error()
        } else {
            EngineView { scheduler: Scheduler::AutoFlipping { period_ms }, ..self }
        }
    }

    /// The engine after automatic flips were called off.
    pub open spec fn auto_flip_stopped(self) -> EngineView {
        EngineView { scheduler: Scheduler::Idle, ..self }
    }

    /// The frame that a flip at `end` ticks into the frame closes.
    pub open spec fn frame_at(self, end: u64) -> FrameView {
        FrameView {
            index: self.frame_index,
            start: self.frame_start,
            duration: end,
            threads: Seq::new(self.threads.len(), |i: int| self.threads[i].frame(end)),
        }
    }

    /// The frame that a flip at tick `now` closes.
    pub open spec fn closing_frame(self, now: u64) -> FrameView {
        self.observe(now).frame_at(self.observe(now).elapsed)
    }

    /// Whether a flip at tick `now` finds a report waiting and the frame a
    /// spike.
    pub open spec fn dump_due(self, now: u64) -> bool {
        self.pending is Some && self.closing_frame(now).exceeds(self.pending->0.threshold)
    }

    /// The engine (alive) after a flip at tick `now`: the frame is closed
    /// and kept, every buffer is empty, threads that have ended are gone,
    /// the next frame opens where this one closed, and a report that was
    /// due is no longer waiting.
    pub open spec fn flipped(self, now: u64) -> EngineView {
        let e = self.observe(now);
        EngineView {
            threads: live_after_flip(e.threads),
            frame_start: tick_after(e.frame_start, e.elapsed) as u64,
            elapsed: 0,
            frame_index: bump(e.frame_index),
            history: remember(e.history, self.closing_frame(now), e.config.history_capacity as int),
            pending: if self.dump_due(now) {
                None
            } else {
                e.pending
            },
            ..e
        }
    }

    /// The files that a flip at tick `now` hands out: those of the report
    /// that was waiting if the frame is a spike, none otherwise.
    pub open spec fn flip_reports(self, now: u64) -> Seq<ReportView> {
        if self.dump_due(now) {
            reports(
                self.pending->0.html,
                self.pending->0.csv,
                self.flipped(now).history,
                self.registry,
                self.config.ticks_per_second,
            )
        } else {
            Seq::empty()
        }
    }

    /// The engine after a flip was asked for at tick `now`. After shutdown
    /// the request is a usage error.
    pub open spec fn flip_requested(self, now: u64) -> EngineView {
        if !self.alive {
            self.usage_error()
        } else {
            self.flipped(now)
        }
    }

    /// The files that a flip asked for at tick `now` hands out.
    pub open spec fn flip_request_reports(self, now: u64) -> Seq<ReportView> {
        if !self.alive {
            Seq::empty()
        } else {
            self.flip_reports(now)
        }
    }

    /// Whether the timer's signal leads to a flip.
    pub open spec fn auto_flip_due(self) -> bool {
        self.alive && self.scheduler is AutoFlipping
    }

    /// The engine after the timer signalled at tick `now`: flipped while
    /// automatic flips are on, untouched otherwise.
    pub open spec fn timer_fired(self, now: u64) -> EngineView {
        if self.auto_flip_due() {
            self.flipped(now)
        } else {
            self
        }
    }

    /// The files that the timer's signal at tick `now` hands out.
    pub open spec fn timer_reports(self, now: u64) -> Seq<ReportView> {
        if self.auto_flip_due() {
            self.flip_reports(now)
        } else {
            Seq::empty()
        }
    }

    /// The files that an immediate dump at tick `now` hands out: what the
    /// flip hands out, then the page and the table that were asked for.
    pub open spec fn immediate_reports(self, html: Seq<char>, csv: Seq<char>, now: u64) -> Seq<
        ReportView,
    > {
        if !self.alive {
            Seq::empty()
        } else {
            self.flip_reports(now) + reports(
                html,
                csv,
                self.flipped(now).history,
                self.registry,
                self.config.ticks_per_second,
            )
        }
    }

    /// The ticks of a threshold given in seconds, if the clock rate is
    /// known.
    pub open spec fn threshold_ticks(self, seconds: crate::clock::Seconds) -> Option<u64> {
        if self.config.ticks_per_second == 0 {
            None
        } else if crate::clock::ticks_in(seconds, self.config.ticks_per_second) > u64::MAX {
            Some(u64::MAX)
        } else {
            Some(crate::clock::ticks_in(seconds, self.config.ticks_per_second) as u64)
        }
    }

    /// Whether a request for a report is refused, and why.
    pub open spec fn dump_error(self) -> Option<ProfileError> {
        if !self.alive {
            Some(ProfileError::AfterShutdown)
        } else if self.config.ticks_per_second == 0 {
            Some(ProfileError::Calibration)
        } else {
            None
        }
    }

    /// The engine after a report was asked for at the next spike above
    /// `cpu_spike`. It replaces a report that was waiting. After shutdown
    /// the request is a usage error, without a clock rate a calibration
    /// error; neither leaves a report waiting that was not.
    pub open spec fn dump_requested(
        self,
        html: Seq<char>,
        csv: Seq<char>,
        cpu_spike: crate::clock::Seconds,
    ) -> EngineView {
        if !self.alive {
            self.usage_error()
        } else if self.config.ticks_per_second == 0 {
            self.calibration_error()
        } else {
            EngineView {
                pending: Some(
                    DumpView { html, csv, threshold: self.threshold_ticks(cpu_spike)->0 },
                ),
                ..self
            }
        }
    }

    /// The engine after everything it held was let go.
    pub open spec fn released(self) -> EngineView {
        EngineView {
            alive: false,
            registry: RegistryView::empty(self.registry.enable_new),
            threads: Seq::empty(),
            scheduler: Scheduler::Idle,
            pending: None,
            history: Seq::empty(),
            ..self
        }
    }

    /// The engine after shutdown at tick `now`. If automatic flips were on,
    /// the flip that was still to come is made first. A second shutdown is
    /// a usage error.
    pub open spec fn shut_down(self, now: u64) -> EngineView {
        if !self.alive {
            self.usage_error()
        } else {
            self.timer_fired(now).released()
        }
    }
}

/// The shared state of the profiler.
pub struct Engine {
    pub(crate) source: TickSource,
    pub(crate) alive: bool,
    pub(crate) config: Config,
    pub(crate) registry: Registry,
    pub(crate) threads: Vec<ThreadContext>,
    pub(crate) frame_start: u64,
    pub(crate) elapsed: u64,
    pub(crate) frame_index: u64,
    pub(crate) scheduler: Scheduler,
    pub(crate) pending: Option<DumpRequest>,
    pub(crate) history: Vec<Frame>,
    pub(crate) diagnostics: Diagnostics,
}

impl View for Engine {
    type V = EngineView;

    open(crate) spec fn view(&self) -> EngineView {
        EngineView {
            alive: self.alive,
            config: self.config,
            registry: self.registry@,
            threads: thread_views(self.threads@),
            frame_start: self.frame_start,
            elapsed: self.elapsed,
            frame_index: self.frame_index,
            scheduler: self.scheduler,
            pending: match self.pending {
                Some(p) => Some(p@),
                None => None,
            },
            history: frame_views(self.history@),
            diagnostics: self.diagnostics,
        }
    }
}

/// Seeing the clock keeps the invariant.
pub proof fn lemma_observe_wf(e: EngineView, now: u64)
    requires
        e.wf(),
    ensures
        e.observe(now).wf(),
        e.observe(now).elapsed >= e.elapsed,
{
    let e2 = e.observe(now);
    assert forall|i: int| 0 <= i < e2.threads.len() implies (#[trigger] e2.threads[i]).buffer_ok(
        e2.config.buffer_capacity as int,
        e2.elapsed as int,
    ) by {
        assert(e.threads[i].buffer_ok(e.config.buffer_capacity as int, e.elapsed as int));
    }
}

/// A thread that is registered because none with its identifier is there
/// shares its identifier with none.
pub proof fn lemma_new_thread_is_alone(threads: Seq<ThreadView>, id: u64, name: Seq<char>)
    requires
        one_thread_per_id(threads),
        find_live(threads, id, 0) < 0,
    ensures
        one_thread_per_id(threads.push(ThreadView::fresh(id, name))),
{
    lemma_find_live(threads, id, 0);
    let after = threads.push(ThreadView::fresh(id, name));
    assert forall|i: int, j: int|
        0 <= i < j < after.len() && !(#[trigger] after[i]).exited && !(
        #[trigger] after[j]).exited implies after[i].id != after[j].id by {
        if j < threads.len() {
            assert(after[i] == threads[i] && after[j] == threads[j]);
        } else {
            assert(after[i] == threads[i]);
        }
    }
}

/// A change to one thread that leaves its identifier alone, and does not
/// bring an ended thread back, keeps the identifiers apart.
pub proof fn lemma_changed_thread_keeps_id(threads: Seq<ThreadView>, i: int, t: ThreadView)
    requires
        one_thread_per_id(threads),
        0 <= i < threads.len(),
        t.id == threads[i].id,
        t.exited || !threads[i].exited,
    ensures
        one_thread_per_id(threads.update(i, t)),
{
    let after = threads.update(i, t);
    assert forall|a: int, b: int|
        0 <= a < b < after.len() && !(#[trigger] after[a]).exited && !(
        #[trigger] after[b]).exited implies after[a].id != after[b].id by {
        assert(!threads[a].exited && !threads[b].exited);
        assert(threads[a].id != threads[b].id);
    }
}

/// The threads that go on after a flip are threads that had not ended, in
/// the order in which they stood.
pub proof fn lemma_live_after_flip_origin(threads: Seq<ThreadView>, k: int)
    requires
        0 <= k < live_after_flip(threads).len(),
    ensures
        exists|i: int|
            0 <= i < threads.len() && !(#[trigger] threads[i]).exited && threads[i].id
                == live_after_flip(threads)[k].id,
        !live_after_flip(threads)[k].exited,
    decreases threads.len(),
{
    if threads.len() > 0 {
        let front = threads.drop_last();
        let last = threads.last();
        if last.exited || k < live_after_flip(front).len() {
            lemma_live_after_flip_origin(front, k);
            let i = choose|i: int|
                0 <= i < front.len() && !(#[trigger] front[i]).exited && front[i].id
                    == live_after_flip(front)[k].id;
            assert(threads[i] == front[i]);
        } else {
            assert(threads[threads.len() - 1] == last);
        }
    }
}

/// A flip keeps the identifiers of the threads apart.
pub proof fn lemma_live_after_flip_ids(threads: Seq<ThreadView>)
    requires
        one_thread_per_id(threads),
    ensures
        one_thread_per_id(live_after_flip(threads)),
    decreases threads.len(),
{
    if threads.len() > 0 {
        let front = threads.drop_last();
        let last = threads.last();
        assert forall|i: int, j: int|
            0 <= i < j < front.len() && !(#[trigger] front[i]).exited && !(
            #[trigger] front[j]).exited implies front[i].id != front[j].id by {
            assert(front[i] == threads[i] && front[j] == threads[j]);
        }
        lemma_live_after_flip_ids(front);
        let kept = live_after_flip(front);
        let after = live_after_flip(threads);
        if !last.exited {
            assert forall|a: int, b: int|
                0 <= a < b < after.len() && !(#[trigger] after[a]).exited && !(
                #[trigger] after[b]).exited implies after[a].id != after[b].id by {
                if b < kept.len() {
                    assert(after[a] == kept[a] && after[b] == kept[b]);
                } else {
                    assert(after[a] == kept[a]);
                    lemma_live_after_flip_origin(front, a);
                    let i = choose|i: int|
                        0 <= i < front.len() && !(#[trigger] front[i]).exited && front[i].id
                            == kept[a].id;
                    assert(threads[i] == front[i]);
                    assert(threads[threads.len() - 1] == last);
                }
            }
        }
    }
}

/// What `find_live` returns is a live thread with the identifier, and no
/// thread before it is one.
pub proof fn lemma_find_live(threads: Seq<ThreadView>, id: u64, from: int)
    requires
        0 <= from,
    ensures
        ({
            let r = find_live(threads, id, from);
            &&& r == -1 || (from <= r < threads.len() && threads[r].id == id && !threads[r].exited)
            &&& forall|j: int|
                from <= j < threads.len() && (r == -1 || j < r) ==> !((#[trigger] threads[j]).id
                    == id && !threads[j].exited)
        }),
    decreases threads.len() - from,
{
    if from < threads.len() && !(threads[from].id == id && !threads[from].exited) {
        lemma_find_live(threads, id, from + 1);
    }
}

impl Engine {
    /// An engine made with `config` whose first frame opens at tick `start`.
    pub(crate) fn with_source(source: TickSource, config: Config, start: u64) -> (e: Engine)
        ensures
            e@ == EngineView::fresh(config, start),
            e@.wf(),
    {
        let e = Engine {
            source,
            alive: true,
            config,
            registry: Registry::new(true),
            threads: Vec::new(),
            frame_start: start,
            elapsed: 0,
            frame_index: 0,
            scheduler: Scheduler::Idle,
            pending: None,
            history: Vec::new(),
            diagnostics: Diagnostics { usage_errors: 0, resource_errors: 0, calibration_errors: 0 },
        };
        assert(e@.threads =~= Seq::empty());
        assert(e@.history =~= Seq::empty());
        e
    }

    /// Sees the clock at `now` and returns the ticks of the frame that have
    /// passed.
    pub(crate) fn observe(&mut self, now: u64) -> (offset: u64)
        ensures
            final(self)@ == old(self)@.observe(now),
            offset == final(self)@.elapsed,
    {
        let d = tick_distance(self.frame_start, now);
        if d < HALF_RANGE && d > self.elapsed {
            self.elapsed = d;
        }
        self.elapsed
    }

    /// Counts a usage error.
    pub(crate) fn usage_error(&mut self)
        ensures
            final(self)@ == old(self)@.usage_error(),
    {
        self.diagnostics.usage_errors = self.diagnostics.usage_errors.saturating_add(1);
    }

    /// Counts a resource error.
    pub(crate) fn resource_error(&mut self)
        ensures
            final(self)@ == old(self)@.resource_error(),
    {
        self.diagnostics.resource_errors = self.diagnostics.resource_errors.saturating_add(1);
    }

    /// The index of the live thread with this identifier.
    pub(crate) fn find_thread(&self, id: u64) -> (r: Option<usize>)
        ensures
            match r {
                Some(i) => find_live(self@.threads, id, 0) == i && i < self.threads@.len(),
                None => find_live(self@.threads, id, 0) == -1,
            },
    {
        let mut i: usize = 0;
        while i < self.threads.len()
            invariant
                i <= self.threads.len(),
                find_live(self@.threads, id, 0) == find_live(self@.threads, id, i as int),
            decreases self.threads.len() - i,
        {
            if self.threads[i].id() == id && !self.threads[i].is_exited() {
                return Some(i);
            }
            i = i + 1;
        }
        None
    }
}

} // verus!
