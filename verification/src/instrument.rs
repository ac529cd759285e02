//! What instrumented code calls: tokens, enter and leave, the registration
//! of threads, and the switch of the groups.

use crate::engine::{
    find_live, lemma_changed_thread_keeps_id, lemma_new_thread_is_alone, lemma_observe_wf, Engine,
    EngineView, ProfileError,
};
use crate::engine_laws::lemma_exited_thread_is_gone;
use crate::recorder::{
    lemma_enter_keeps_buffer, lemma_leave_keeps_buffer, ThreadContext, ThreadView,
};
use vstd::prelude::*;

verus! {

/// The token of the instrumentation point `name` in `group`. The first
/// request for a pair creates the point, and the group if it is new, with
/// `color`; every later request returns the same token and changes nothing.
/// After shutdown the request is counted as a usage error and gets
/// `NO_TOKEN`.
pub fn get_token(engine: &mut Engine, group: String, name: String, color: u32) -> (token: u64)
    requires
        old(engine)@.wf(),
    ensures
        (final(engine)@, token) == old(engine)@.token_requested(group@, name@, color),
        final(engine)@.wf(),
{
    if !engine.alive {
        engine.usage_error();
        return crate::registry::NO_TOKEN;
    }
    engine.registry.get_token(group, name, color)
}

/// Switches all groups, and those still to come, on or off. While they are
/// off, enter and leave log nothing and count nothing: they only keep the
/// stacks of open scopes in step.
pub fn set_enable_all_groups(engine: &mut Engine, enable: bool)
    requires
        old(engine)@.wf(),
    ensures
        final(engine)@ == old(engine)@.groups_switched(enable),
        final(engine)@.wf(),
{
    if !engine.alive {
        engine.usage_error();
        return;
    }
    engine.registry.set_enable_all(enable);
}

/// Registers the calling thread, `thread`, under a display name. A thread
/// that is registered already, or an engine that has been shut down, is an
/// error: it is counted and handed back, and nothing is registered.
pub fn on_thread_create(engine: &mut Engine, thread: u64, thread_name: &str) -> (r: Result<
    (),
    ProfileError,
>)
    requires
        old(engine)@.wf(),
    ensures
        final(engine)@ == old(engine)@.thread_created(thread, thread_name@),
        final(engine)@.wf(),
        match old(engine)@.creation_error(thread) {
            Some(e) => r == Err::<(), ProfileError>(e),
            None => r is Ok,
        },
{
    if !engine.alive {
        engine.usage_error();
        return Err(ProfileError::AfterShutdown);
    }
    if engine.find_thread(thread).is_some() {
        engine.usage_error();
        return Err(ProfileError::DoubleRegistration);
    }
    let ghost before = engine@;
    engine.threads.push(ThreadContext::new(thread, thread_name.to_owned()));
    proof {
        assert(engine@.threads =~= before.threads.push(ThreadView::fresh(thread, thread_name@)));
        lemma_new_thread_is_alone(before.threads, thread, thread_name@);
    }
    Ok(())
}

/// Ends the registration of `thread`: from then on no thread is registered
/// under its number. What it has recorded stays until the next flip has
/// taken it. A thread that is not registered, or an engine
/// that has been shut down, is an error: it is counted and handed back.
pub fn on_thread_exit(engine: &mut Engine, thread: u64) -> (r: Result<(), ProfileError>)
    requires
        old(engine)@.wf(),
    ensures
        final(engine)@ == old(engine)@.thread_exited(thread),
        final(engine)@.wf(),
        match old(engine)@.exit_error(thread) {
            Some(e) => r == Err::<(), ProfileError>(e),
            None => r is Ok,
        },
        r is Ok ==> find_live(final(engine)@.threads, thread, 0) == -1,
{
    if !engine.alive {
        engine.usage_error();
        return Err(ProfileError::AfterShutdown);
    }
    match engine.find_thread(thread) {
        None => {
            engine.usage_error();
            Err(ProfileError::UnknownThread)
        },
        Some(i) => {
            let ghost before = engine@;
            engine.threads[i].mark_exited();
            proof {
                let t = ThreadView { exited: true, ..before.threads[i as int] };
                assert(engine@.threads =~= before.threads.update(i as int, t));
                lemma_changed_thread_keeps_id(before.threads, i as int, t);
                lemma_exited_thread_is_gone(before, thread);
            }
            Ok(())
        },
    }
}

/// The place of the context of `thread` among the threads. A thread that is
/// not registered is registered without a name.
fn thread_slot(engine: &mut Engine, thread: u64) -> (i: usize)
    requires
        old(engine)@.wf(),
    ensures
        find_live(old(engine)@.threads, thread, 0) >= 0 ==> final(engine)@ == old(engine)@ && i
            == find_live(old(engine)@.threads, thread, 0),
        find_live(old(engine)@.threads, thread, 0) < 0 ==> final(engine)@ == (EngineView {
            threads: old(engine)@.threads.push(ThreadView::fresh(thread, Seq::empty())),
            ..old(engine)@
        }) && i == old(engine)@.threads.len(),
        i < final(engine)@.threads.len(),
        final(engine)@.wf(),
{
    let ghost before = engine@;
    match engine.find_thread(thread) {
        Some(i) => i,
        None => {
            engine.threads.push(ThreadContext::new(thread, String::new()));
            proof {
                assert(engine@.threads =~= before.threads.push(
                    ThreadView::fresh(thread, Seq::empty()),
                ));
                lemma_new_thread_is_alone(before.threads, thread, Seq::empty());
            }
            engine.threads.len() - 1
        },
    }
}

/// Enters the scope of `token` on `thread` at tick `now`.
///
/// While the groups are switched off the call records nothing and counts
/// nothing: it opens the scope, so that the leave that follows finds it, and
/// after shutdown it does nothing at all.
///
/// While they are on, a thread that is not registered is registered without
/// a name, the scope is opened, and the enter is logged if the token is
/// known. An event that the full buffer loses is counted as a resource
/// error, a token that is not known as a usage error, and after shutdown the
/// call itself.
pub fn enter_at(engine: &mut Engine, thread: u64, token: u64, now: u64)
    requires
        old(engine)@.wf(),
    ensures
        final(engine)@ == old(engine)@.entered(thread, token, now),
        final(engine)@.wf(),
{
    let capacity = engine.config.buffer_capacity;
    if !engine.registry.is_on() {
        if engine.alive {
            let offset = engine.elapsed;
            let i = thread_slot(engine, thread);
            let ghost threads = engine@.threads;
            let _ = engine.threads[i].enter(token, now, offset, false, capacity);
            proof {
                let t = threads[i as int].enter(token, now, offset, false, capacity as int);
                lemma_enter_keeps_buffer(
                    threads[i as int],
                    token,
                    now,
                    offset,
                    false,
                    capacity as int,
                );
                lemma_changed_thread_keeps_id(threads, i as int, t);
                assert(engine@.threads =~= threads.update(i as int, t));
            }
        }
        return;
    }
    if !engine.alive {
        engine.usage_error();
        return;
    }
    proof {
        lemma_observe_wf(engine@, now);
    }
    let offset = engine.observe(now);
    let i = thread_slot(engine, thread);
    let ghost threads = engine@.threads;
    let records = engine.registry.records(token);
    let known = engine.registry.knows(token);
    let lost = engine.threads[i].enter(token, now, offset, records, capacity);
    proof {
        let t = threads[i as int].enter(token, now, offset, records, capacity as int);
        lemma_enter_keeps_buffer(threads[i as int], token, now, offset, records, capacity as int);
        lemma_changed_thread_keeps_id(threads, i as int, t);
        assert(engine@.threads =~= threads.update(i as int, t));
    }
    if lost {
        engine.resource_error();
    }
    if !known {
        engine.usage_error();
    }
}

/// Leaves the innermost open scope of `thread` at tick `now`.
///
/// While the groups are switched off the call records nothing and counts
/// nothing, whatever the stack holds: it closes the innermost scope if there
/// is one.
///
/// While they are on, the leave is logged if the enter was. An event that
/// the full buffer loses is counted as a resource error. A leave that finds
/// no open scope is counted as a usage error and changes nothing else.
pub fn leave_at(engine: &mut Engine, thread: u64, now: u64)
    requires
        old(engine)@.wf(),
    ensures
        final(engine)@ == old(engine)@.left(thread, now),
        final(engine)@.wf(),
{
    let capacity = engine.config.buffer_capacity;
    if !engine.registry.is_on() {
        if let Some(i) = engine.find_thread(thread) {
            if engine.threads[i].depth() > 0 {
                let ghost e = engine@;
                let offset = engine.elapsed;
                let _ = engine.threads[i].leave(offset, false, capacity);
                proof {
                    let t = e.threads[i as int].leave(offset, false, capacity as int);
                    lemma_leave_keeps_buffer(e.threads[i as int], offset, false, capacity as int);
                    lemma_changed_thread_keeps_id(e.threads, i as int, t);
                    assert(engine@.threads =~= e.threads.update(i as int, t));
                }
            }
        }
        return;
    }
    if !engine.alive {
        engine.usage_error();
        return;
    }
    match engine.find_thread(thread) {
        None => {
            engine.usage_error();
        },
        Some(i) => {
            if engine.threads[i].depth() == 0 {
                engine.usage_error();
                return;
            }
            proof {
                lemma_observe_wf(engine@, now);
            }
            let offset = engine.observe(now);
            let ghost e = engine@;
            let lost = engine.threads[i].leave(offset, true, capacity);
            proof {
                let t = e.threads[i as int].leave(offset, true, capacity as int);
                lemma_leave_keeps_buffer(e.threads[i as int], offset, true, capacity as int);
                lemma_changed_thread_keeps_id(e.threads, i as int, t);
                assert(engine@.threads =~= e.threads.update(i as int, t));
            }
            if let Some(true) = lost {
                engine.resource_error();
            }
        },
    }
}

/// Enters the scope of `token` on `thread` at the present tick of the
/// engine's clock.
pub fn enter(engine: &mut Engine, thread: u64, token: u64)
    requires
        old(engine)@.wf(),
    ensures
        exists|now: u64| final(engine)@ == #[trigger] old(engine)@.entered(thread, token, now),
        final(engine)@.wf(),
{
    let now = engine.source.read();
    enter_at(engine, thread, token, now);
}

/// Leaves the innermost open scope of `thread` at the present tick of the
/// engine's clock.
pub fn leave(engine: &mut Engine, thread: u64)
    requires
        old(engine)@.wf(),
    ensures
        exists|now: u64| final(engine)@ == #[trigger] old(engine)@.left(thread, now),
        final(engine)@.wf(),
{
    let now = engine.source.read();
    leave_at(engine, thread, now);
}

/// The token of one call site: asked for at the first use, kept from then
/// on, so that the registry is searched once and no more. A call site
/// belongs to the engine that it asked: a token means nothing to another
/// engine, which hands out its own.
pub struct CallSite {
    group: String,
    name: String,
    color: u32,
    token: u64,
}

impl CallSite {
    /// The name of the group.
    pub closed spec fn group(&self) -> Seq<char> {
        self.group@
    }

    /// The name of the scope.
    pub closed spec fn name(&self) -> Seq<char> {
        self.name@
    }

    /// The color.
    pub closed spec fn color(&self) -> u32 {
        self.color
    }

    /// The token that is kept, `NO_TOKEN` before the first use.
    pub closed spec fn cached(&self) -> u64 {
        self.token
    }

    /// A call site that has not asked for its token yet.
    pub fn new(group: String, name: String, color: u32) -> (site: CallSite)
        ensures
            site.group() == group@,
            site.name() == name@,
            site.color() == color,
            site.cached() == crate::registry::NO_TOKEN,
    {
        CallSite { group, name, color, token: crate::registry::NO_TOKEN }
    }

    /// The token of the call site. The first use asks the engine for it;
    /// every later use returns what was kept and leaves the engine alone.
    pub fn token(&mut self, engine: &mut Engine) -> (token: u64)
        requires
            old(engine)@.wf(),
        ensures
            final(self).group() == old(self).group(),
            final(self).name() == old(self).name(),
            final(self).color() == old(self).color(),
            final(self).cached() == token,
            old(self).cached() != crate::registry::NO_TOKEN ==> token == old(self).cached()
                && final(engine)@ == old(engine)@,
            old(self).cached() == crate::registry::NO_TOKEN ==> (final(engine)@, token) == old(
                engine,
            )@.token_requested(old(self).group(), old(self).name(), old(self).color()),
            final(engine)@.wf(),
    {
        if self.token == crate::registry::NO_TOKEN {
            self.token = get_token(engine, self.group.clone(), self.name.clone(), self.color);
        }
        self.token
    }
}

/// A scope that is open and has to be closed: the value that stands for the
/// obligation to leave. It is made by entering and used up by leaving.
pub struct MicroProfileDroppable {
    /// The thread on which the scope is open.
    pub thread: u64,
}

impl MicroProfileDroppable {
    /// Enters the scope of `token` on `thread` at tick `now`.
    pub fn open_at(engine: &mut Engine, thread: u64, token: u64, now: u64) -> (scope:
        MicroProfileDroppable)
        requires
            old(engine)@.wf(),
        ensures
            final(engine)@ == old(engine)@.entered(thread, token, now),
            final(engine)@.wf(),
            scope.thread == thread,
    {
        enter_at(engine, thread, token, now);
        MicroProfileDroppable { thread }
    }

    /// Leaves the scope at tick `now`.
    pub fn close_at(self, engine: &mut Engine, now: u64)
        requires
            old(engine)@.wf(),
        ensures
            final(engine)@ == old(engine)@.left(self.thread, now),
            final(engine)@.wf(),
    {
        leave_at(engine, self.thread, now);
    }

    /// Enters the scope of `token` on `thread` at the present tick.
    pub fn open(engine: &mut Engine, thread: u64, token: u64) -> (scope: MicroProfileDroppable)
        requires
            old(engine)@.wf(),
        ensures
            exists|now: u64| final(engine)@ == #[trigger] old(engine)@.entered(thread, token, now),
            final(engine)@.wf(),
            scope.thread == thread,
    {
        enter(engine, thread, token);
        MicroProfileDroppable { thread }
    }

    /// Leaves the scope at the present tick.
    pub fn close(self, engine: &mut Engine)
        requires
            old(engine)@.wf(),
        ensures
            exists|now: u64|
                final(engine)@ == #[trigger] old(engine)@.left(self.thread, now),
            final(engine)@.wf(),
    {
        leave(engine, self.thread);
    }
}

} // verus!
