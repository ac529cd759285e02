//! The life of an engine, from `init` to `shutdown`, and its clock.

use crate::clock::{is_ahead, seconds_from_ticks, tick_advance, Seconds, TickSource,
    SOURCE_TICKS_PER_SECOND};
use crate::engine::{
    lemma_observe_wf, report_views, Config, Diagnostics, Engine, EngineView, ProfileError,
    ReportFile, Scheduler,
};
use crate::frame::Frame;
use crate::registry::RegistryView;
use crate::report::frame_views;
use crate::scheduler::auto_flip_at;
use vstd::prelude::*;

verus! {

/// What `init` makes an engine with: the rate of the engine's own clock,
/// room for 65536 events a thread, and the 32 latest frames kept.
pub open spec fn standard_config() -> Config {
    Config {
        ticks_per_second: SOURCE_TICKS_PER_SECOND,
        buffer_capacity: 65536,
        history_capacity: 32,
    }
}

/// An engine with the standard configuration whose first frame opens at
/// the present tick of its clock.
pub fn init() -> (engine: Engine)
    ensures
        exists|start: u64| engine@ == #[trigger] EngineView::fresh(standard_config(), start),
        engine@.wf(),
{
    let mut source = TickSource::start();
    let start = source.read();
    let config = Config {
        ticks_per_second: SOURCE_TICKS_PER_SECOND,
        buffer_capacity: 65536,
        history_capacity: 32,
    };
    assert(config == standard_config());
    let engine = Engine::with_source(source, config, start);
    assert(engine@ == EngineView::fresh(standard_config(), start));
    engine
}

/// An engine made with `config` whose first frame opens at tick `start`,
/// for a caller that brings the ticks of a clock of its own.
pub fn init_with(config: Config, start: u64) -> (engine: Engine)
    ensures
        engine@ == EngineView::fresh(config, start),
        engine@.wf(),
{
    Engine::with_source(TickSource::start(), config, start)
}

/// Shuts the engine down at tick `now`. If automatic flips are on, the flip
/// that was still to come is made first, and its files are returned. Then
/// tokens, threads and frames are let go. From then on a request for a
/// token, the switch of the groups, the registration and the end of a
/// thread, enter and leave while the groups are on, a flip, either dump,
/// `start_auto_flip` and a second shutdown are usage errors. The clock and
/// the getters go on as before; `stop_auto_flip`, the timer's signal, and
/// enter and leave while the groups are off do nothing; and
/// `report_write_failed` still counts.
pub fn shutdown_at(engine: &mut Engine, now: u64) -> (files: Vec<ReportFile>)
    requires
        old(engine)@.wf(),
    ensures
        final(engine)@ == old(engine)@.shut_down(now),
        report_views(files@) == (if old(engine)@.alive {
            old(engine)@.timer_reports(now)
        } else {
            Seq::empty()
        }),
        old(engine)@.alive ==> files@.len() == old(engine)@.timer_reports(now).len(),
        !old(engine)@.alive ==> files@.len() == 0,
        final(engine)@.wf(),
        !final(engine)@.alive,
{
    if !engine.alive {
        engine.usage_error();
        let files: Vec<ReportFile> = Vec::new();
        assert(report_views(files@) =~= Seq::empty());
        return files;
    }
    let files = auto_flip_at(engine, now);
    let ghost e = engine@;
    engine.alive = false;
    engine.registry.clear();
    engine.threads = Vec::new();
    engine.scheduler = Scheduler::Idle;
    engine.pending = None;
    engine.history = Vec::new();
    proof {
        assert(engine@.threads =~= Seq::empty());
        assert(engine@.history =~= Seq::empty());
        assert(engine@.registry == RegistryView::empty(e.registry.enable_new));
    }
    files
}

/// Shuts the engine down at the present tick of its clock.
pub fn shutdown(engine: &mut Engine) -> (files: Vec<ReportFile>)
    requires
        old(engine)@.wf(),
    ensures
        exists|now: u64|
            final(engine)@ == #[trigger] old(engine)@.shut_down(now) && report_views(files@) == (
            if old(engine)@.alive {
                old(engine)@.timer_reports(now)
            } else {
                Seq::empty()
            }),
        final(engine)@.wf(),
        !final(engine)@.alive,
{
    let now = engine.source.read();
    shutdown_at(engine, now)
}

/// The tick that the engine has reached once it has seen the clock at
/// `raw`. The tick never lies behind the one returned before: a reading
/// that does is not taken.
pub fn tick_at(engine: &mut Engine, raw: u64) -> (t: u64)
    requires
        old(engine)@.wf(),
    ensures
        final(engine)@ == old(engine)@.observe(raw),
        t == final(engine)@.now(),
        is_ahead(old(engine)@.now(), t),
        final(engine)@.wf(),
{
    proof {
        lemma_observe_wf(engine@, raw);
    }
    let offset = engine.observe(raw);
    tick_advance(engine.frame_start, offset)
}

/// Reads the engine's clock and returns the tick that the engine has
/// reached. The tick never lies behind the one returned before: a reading
/// that does is not taken.
pub fn tick(engine: &mut Engine) -> (t: u64)
    requires
        old(engine)@.wf(),
    ensures
        exists|raw: u64| final(engine)@ == #[trigger] old(engine)@.observe(raw),
        t == final(engine)@.now(),
        is_ahead(old(engine)@.now(), t),
        final(engine)@.wf(),
{
    let raw = engine.source.read();
    tick_at(engine, raw)
}

/// The ticks of the clock in one second; zero if that is not known.
pub fn ticks_per_second_cpu(engine: &Engine) -> (n: u64)
    ensures
        n == engine@.config.ticks_per_second,
{
    engine.config.ticks_per_second
}

/// Converts a number of ticks to seconds. Without a clock rate there is
/// nothing to divide by, and the call fails with a calibration error.
pub fn ticks_to_seconds(engine: &Engine, ticks: u64) -> (r: Result<Seconds, ProfileError>)
    ensures
        engine@.config.ticks_per_second == 0 ==> r == Err::<Seconds, ProfileError>(
            ProfileError::Calibration,
        ),
        engine@.config.ticks_per_second != 0 ==> r is Ok,
        r matches Ok(s) ==> {
            &&& s.whole == crate::clock::whole_seconds(ticks, engine@.config.ticks_per_second)
            &&& s.nanos == crate::clock::fraction_nanos(ticks, engine@.config.ticks_per_second)
        },
{
    match seconds_from_ticks(ticks, engine.config.ticks_per_second) {
        Some(s) => Ok(s),
        None => Err(ProfileError::Calibration),
    }
}

/// Whether the engine has not been shut down.
pub fn is_alive(engine: &Engine) -> (b: bool)
    ensures
        b == engine@.alive,
{
    engine.alive
}

/// The counters of what went wrong.
pub fn diagnostics(engine: &Engine) -> (d: Diagnostics)
    ensures
        d == engine@.diagnostics,
{
    engine.diagnostics
}

/// The frames kept, oldest first.
pub fn frames(engine: &Engine) -> (history: &Vec<Frame>)
    ensures
        frame_views(history@) == engine@.history,
{
    &engine.history
}

} // verus!
