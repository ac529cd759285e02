//! Flips: the one that is asked for, and the one that the timer brings
//! while automatic flips are on.

use crate::clock::tick_advance;
use crate::engine::{
    lemma_live_after_flip_ids, lemma_observe_wf, live_after_flip, remember, report_views, reports,
    thread_views, Engine, ReportFile, Scheduler,
};
use crate::frame::{part_views, Frame, ThreadFrame};
use crate::recorder::{ThreadContext, ThreadView};
use crate::report::{write_csv, write_html};
use vstd::prelude::*;

verus! {

/// After a flip every thread that is left has an empty buffer, has lost
/// nothing and has not ended.
pub proof fn lemma_live_after_flip(threads: Seq<ThreadView>)
    ensures
        live_after_flip(threads).len() <= threads.len(),
        forall|i: int|
            0 <= i < live_after_flip(threads).len() ==> {
                &&& (#[trigger] live_after_flip(threads)[i]).events.len() == 0
                &&& live_after_flip(threads)[i].dropped == 0
                &&& !live_after_flip(threads)[i].exited
            },
    decreases threads.len(),
{
    if threads.len() > 0 {
        lemma_live_after_flip(threads.drop_last());
    }
}

/// Closes every thread's part of a frame `end` ticks after it opened, and
/// lets go of the threads that have ended.
fn close_threads(threads: &mut Vec<ThreadContext>, end: u64) -> (parts: Vec<ThreadFrame>)
    ensures
        part_views(parts@) == Seq::new(
            old(threads)@.len(),
            |i: int| old(threads)@[i]@.frame(end),
        ),
        thread_views(final(threads)@) == live_after_flip(thread_views(old(threads)@)),
{
    let ghost before = thread_views(threads@);
    let mut parts: Vec<ThreadFrame> = Vec::new();
    // `k` walks the vector as it shrinks; `m` counts the threads dealt with.
    let mut k: usize = 0;
    let ghost mut m: int = 0;
    assert(thread_views(threads@).take(0) =~= live_after_flip(before.take(0)));
    assert(thread_views(threads@).skip(0) =~= before.skip(0));
    while k < threads.len()
        invariant
            k <= threads.len(),
            0 <= m <= before.len(),
            before == thread_views(old(threads)@),
            threads.len() - k == before.len() - m,
            parts@.len() == m,
            forall|j: int| 0 <= j < m ==> (#[trigger] parts@[j])@ == before[j].frame(end),
            thread_views(threads@).take(k as int) == live_after_flip(before.take(m)),
            thread_views(threads@).skip(k as int) == before.skip(m),
        decreases threads.len() - k,
    {
        let ghost cur = thread_views(threads@);
        let ghost t = before[m];
        assert(cur[k as int] == cur.skip(k as int)[0]);
        assert(before.skip(m)[0] == t);
        let part = threads[k].close_frame(end);
        parts.push(part);
        let gone = threads[k].is_exited();
        let ghost mid = thread_views(threads@);
        assert(mid =~= cur.update(k as int, t.after_flip()));
        proof {
            assert(before.take(m + 1).drop_last() =~= before.take(m));
            assert(before.take(m + 1).last() == t);
        }
        if gone {
            let _ = threads.remove(k);
            proof {
                let after = thread_views(threads@);
                assert(after =~= mid.remove(k as int));
                assert(after.take(k as int) =~= cur.take(k as int));
                assert forall|j: int| 0 <= j < after.len() - k implies after.skip(k as int)[j]
                    == before.skip(m + 1)[j] by {
                    assert(after.skip(k as int)[j] == mid[k + 1 + j]);
                    assert(cur.skip(k as int)[j + 1] == cur[k + 1 + j]);
                    assert(before.skip(m)[j + 1] == before[m + 1 + j]);
                }
                assert(after.skip(k as int) =~= before.skip(m + 1));
            }
        } else {
            k = k + 1;
            proof {
                assert(mid.take(k as int) =~= cur.take(k - 1).push(t.after_flip()));
                assert forall|j: int| 0 <= j < mid.len() - k implies mid.skip(k as int)[j]
                    == before.skip(m + 1)[j] by {
                    assert(mid.skip(k as int)[j] == cur[k + j]);
                    assert(cur.skip(k - 1)[j + 1] == cur[k + j]);
                    assert(before.skip(m)[j + 1] == before[m + 1 + j]);
                }
                assert(mid.skip(k as int) =~= before.skip(m + 1));
            }
        }
        proof {
            m = m + 1;
        }
    }
    proof {
        assert(before.take(m) =~= before);
        assert(thread_views(threads@).take(k as int) =~= thread_views(threads@));
        assert(part_views(parts@) =~= Seq::new(
            old(threads)@.len(),
            |i: int| old(threads)@[i]@.frame(end),
        ));
    }
    parts
}

/// The files of a dump of the frames that the engine keeps.
pub(crate) fn make_reports(engine: &Engine, html: String, csv: String) -> (files: Vec<ReportFile>)
    requires
        engine@.wf(),
    ensures
        report_views(files@) == reports(
            html@,
            csv@,
            engine@.history,
            engine@.registry,
            engine@.config.ticks_per_second,
        ),
{
    let ghost html_path = html@;
    let ghost csv_path = csv@;
    let mut files: Vec<ReportFile> = Vec::new();
    if !html.as_str().is_empty() {
        let bytes = write_html(&engine.history, &engine.registry, engine.config.ticks_per_second);
        files.push(ReportFile { path: html, bytes });
    }
    if !csv.as_str().is_empty() {
        let bytes = write_csv(&engine.history, &engine.registry);
        files.push(ReportFile { path: csv, bytes });
    }
    assert(report_views(files@) =~= reports(
        html_path,
        csv_path,
        engine@.history,
        engine@.registry,
        engine@.config.ticks_per_second,
    ));
    files
}

/// The flip itself, on an engine that is alive.
pub(crate) fn flip_alive(engine: &mut Engine, now: u64) -> (files: Vec<ReportFile>)
    requires
        old(engine)@.wf(),
        old(engine)@.alive,
    ensures
        final(engine)@ == old(engine)@.flipped(now),
        report_views(files@) == old(engine)@.flip_reports(now),
        files@.len() == old(engine)@.flip_reports(now).len(),
        final(engine)@.wf(),
{
    let ghost start = engine@;
    proof {
        lemma_observe_wf(start, now);
    }
    let end = engine.observe(now);
    let ghost e = engine@;
    let parts = close_threads(&mut engine.threads, end);
    let frame = Frame {
        index: engine.frame_index,
        start: engine.frame_start,
        duration: end,
        threads: parts,
    };
    proof {
        assert(frame@.threads =~= e.frame_at(end).threads);
        assert(frame@ == start.closing_frame(now));
        lemma_live_after_flip(e.threads);
        lemma_live_after_flip_ids(e.threads);
    }
    let due = match &engine.pending {
        Some(p) => frame.exceeds(p.threshold),
        None => false,
    };
    if engine.history.len() > 0 && engine.history.len() >= engine.config.history_capacity {
        let _ = engine.history.remove(0);
    }
    engine.history.push(frame);
    engine.frame_start = tick_advance(engine.frame_start, end);
    engine.elapsed = 0;
    engine.frame_index = engine.frame_index.saturating_add(1);
    proof {
        assert(engine@.history =~= remember(
            e.history,
            start.closing_frame(now),
            e.config.history_capacity as int,
        ));
    }
    if due {
        match engine.pending.take() {
            Some(p) => make_reports(engine, p.html, p.csv),
            None => Vec::new(),
        }
    } else {
        let files: Vec<ReportFile> = Vec::new();
        assert(report_views(files@) =~= Seq::empty());
        files
    }
}

/// Closes the present frame at tick `now` and opens the next: builds the
/// call tree of every thread from what it recorded, keeps the frame, and
/// empties the buffers. A scope that is open across the flip stays open: in
/// the frame that closes, its call ends at the flip and is marked as
/// spanning; its leave, when it comes, finds no open call in the later frame,
/// where it is counted and changes nothing else. Returns the files of a
/// report that was waiting for a spike, if this frame is one. After shutdown
/// the call is counted as a usage error and does nothing else.
pub fn flip_at(engine: &mut Engine, now: u64) -> (files: Vec<ReportFile>)
    requires
        old(engine)@.wf(),
    ensures
        final(engine)@ == old(engine)@.flip_requested(now),
        report_views(files@) == old(engine)@.flip_request_reports(now),
        files@.len() == old(engine)@.flip_request_reports(now).len(),
        final(engine)@.wf(),
{
    if !engine.alive {
        engine.usage_error();
        let files: Vec<ReportFile> = Vec::new();
        assert(report_views(files@) =~= Seq::empty());
        return files;
    }
    flip_alive(engine, now)
}

/// Closes the present frame at the present tick of the engine's clock.
pub fn flip(engine: &mut Engine) -> (files: Vec<ReportFile>)
    requires
        old(engine)@.wf(),
    ensures
        exists|now: u64|
            final(engine)@ == #[trigger] old(engine)@.flip_requested(now) && report_views(files@)
                == old(engine)@.flip_request_reports(now),
        final(engine)@.wf(),
{
    let now = engine.source.read();
    flip_at(engine, now)
}

/// Turns automatic flips on, one every `ms` milliseconds; if they are on
/// already, replaces the period. After shutdown the call is counted as a
/// usage error.
pub fn start_auto_flip(engine: &mut Engine, ms: u32)
    requires
        old(engine)@.wf(),
    ensures
        final(engine)@ == old(engine)@.auto_flip_started(ms),
        final(engine)@.wf(),
{
    if !engine.alive {
        engine.usage_error();
        return;
    }
    engine.scheduler = Scheduler::AutoFlipping { period_ms: ms };
}

/// Turns automatic flips off. From then on the timer's signal does nothing.
/// Without automatic flips the call changes nothing.
pub fn stop_auto_flip(engine: &mut Engine)
    requires
        old(engine)@.wf(),
    ensures
        final(engine)@ == old(engine)@.auto_flip_stopped(),
        final(engine)@.wf(),
        old(engine)@.scheduler is Idle ==> final(engine)@ == old(engine)@,
{
    engine.scheduler = Scheduler::Idle;
}

/// The period for which the timer is to be set, in milliseconds, if
/// automatic flips are on.
pub fn auto_flip_period(engine: &Engine) -> (period: Option<u32>)
    ensures
        period == (match engine@.scheduler {
            Scheduler::AutoFlipping { period_ms } => Some(period_ms),
            Scheduler::Idle => None,
        }),
{
    match engine.scheduler {
        Scheduler::AutoFlipping { period_ms } => Some(period_ms),
        Scheduler::Idle => None,
    }
}

/// The timer's signal at tick `now`: a flip while automatic flips are on,
/// and nothing at all once they are off or the engine is shut down.
pub fn auto_flip_at(engine: &mut Engine, now: u64) -> (files: Vec<ReportFile>)
    requires
        old(engine)@.wf(),
    ensures
        final(engine)@ == old(engine)@.timer_fired(now),
        report_views(files@) == old(engine)@.timer_reports(now),
        files@.len() == old(engine)@.timer_reports(now).len(),
        final(engine)@.wf(),
{
    let on = match engine.scheduler {
        Scheduler::AutoFlipping { .. } => true,
        Scheduler::Idle => false,
    };
    if engine.alive && on {
        flip_alive(engine, now)
    } else {
        let files: Vec<ReportFile> = Vec::new();
        assert(report_views(files@) =~= Seq::empty());
        files
    }
}

/// The timer's signal at the present tick of the engine's clock.
pub fn auto_flip(engine: &mut Engine) -> (files: Vec<ReportFile>)
    requires
        old(engine)@.wf(),
    ensures
        exists|now: u64|
            final(engine)@ == #[trigger] old(engine)@.timer_fired(now) && report_views(files@)
                == old(engine)@.timer_reports(now),
        final(engine)@.wf(),
{
    let now = engine.source.read();
    auto_flip_at(engine, now)
}

} // verus!
