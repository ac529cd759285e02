//! Reports: the one that waits for a spike, and the one that is made at
//! once. The library makes the bytes; writing them is left to the caller,
//! who reports back a file that could not be written.

use crate::clock::{ticks_from_seconds, Seconds};
use crate::engine::{report_views, DumpRequest, Engine, ProfileError, ReportFile};
use crate::scheduler::{flip_alive, make_reports};
use vstd::prelude::*;

verus! {

/// Asks for a report at the next flip whose frame is a spike: one in which
/// the root calls of some thread took more than `cpu_spike` together. The
/// page goes to `html` and the table to `csv`; an empty path skips that
/// file. `gpu_spike` is accepted and has no effect: the engine times no
/// GPU. The request is refused after shutdown, and without a clock rate,
/// since the threshold cannot be turned into ticks then; either is counted
/// and handed back.
pub fn dump_file(
    engine: &mut Engine,
    html: String,
    csv: String,
    cpu_spike: Seconds,
    gpu_spike: Seconds,
) -> (r: Result<(), ProfileError>)
    requires
        old(engine)@.wf(),
    ensures
        final(engine)@ == old(engine)@.dump_requested(html@, csv@, cpu_spike),
        final(engine)@.wf(),
        match old(engine)@.dump_error() {
            Some(e) => r == Err::<(), ProfileError>(e),
            None => r is Ok,
        },
{
    if !engine.alive {
        engine.usage_error();
        return Err(ProfileError::AfterShutdown);
    }
    match ticks_from_seconds(cpu_spike, engine.config.ticks_per_second) {
        None => {
            engine.diagnostics.calibration_errors =
                engine.diagnostics.calibration_errors.saturating_add(1);
            Err(ProfileError::Calibration)
        },
        Some(threshold) => {
            engine.pending = Some(DumpRequest { html, csv, threshold });
            Ok(())
        },
    }
}

/// Flips at tick `now` and makes a report of the frames kept, whatever
/// they took: the page under `html`, the table under `csv`, an empty path
/// skipping that file. The files come after those of a report that was
/// waiting and fell due at this flip. After shutdown the call is counted as
/// a usage error and makes no file.
pub fn dump_file_immediately_at(engine: &mut Engine, html: &str, csv: &str, now: u64) -> (files:
    Vec<ReportFile>)
    requires
        old(engine)@.wf(),
    ensures
        final(engine)@ == old(engine)@.flip_requested(now),
        report_views(files@) == old(engine)@.immediate_reports(html@, csv@, now),
        files@.len() == old(engine)@.immediate_reports(html@, csv@, now).len(),
        final(engine)@.wf(),
{
    if !engine.alive {
        engine.usage_error();
        let files: Vec<ReportFile> = Vec::new();
        assert(report_views(files@) =~= Seq::empty());
        return files;
    }
    let mut files = flip_alive(engine, now);
    let ghost first = files@;
    let mut more = make_reports(engine, html.to_owned(), csv.to_owned());
    let ghost second = more@;
    files.append(&mut more);
    assert(report_views(files@) =~= report_views(first) + report_views(second));
    files
}

/// Flips at the present tick of the engine's clock and makes a report of
/// the frames kept.
pub fn dump_file_immediately(engine: &mut Engine, html: &str, csv: &str) -> (files: Vec<
    ReportFile,
>)
    requires
        old(engine)@.wf(),
    ensures
        exists|now: u64|
            final(engine)@ == #[trigger] old(engine)@.flip_requested(now) && report_views(files@)
                == old(engine)@.immediate_reports(html@, csv@, now),
        final(engine)@.wf(),
{
    let now = engine.source.read();
    dump_file_immediately_at(engine, html, csv, now)
}

/// Counts a report file that could not be written.
pub fn report_write_failed(engine: &mut Engine)
    requires
        old(engine)@.wf(),
    ensures
        final(engine)@ == old(engine)@.resource_error(),
        final(engine)@.wf(),
{
    engine.resource_error();
}

} // verus!
