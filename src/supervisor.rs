use vstd::prelude::*;

use crate::launch::CaptureSpec;

verus! {

/// Identifies one capture for the supervisor's lifetime.
pub type CaptureId = u64;

/// Why a capture ended without an exit code of its own.
#[derive(Clone, Copy, Debug, PartialEq, Eq, Structural)]
pub enum FailReason {
    /// The process was ended by a signal.
    Signaled,
    /// Waiting on the process failed.
    WaitFailed,
    /// The progress stream broke (a line without terminator grew too long).
    StreamBroken,
    /// The process did not end within the shutdown bound after termination.
    TerminationTimedOut,
}

/// Lifecycle of one capture.
#[derive(Clone, Copy, Debug, PartialEq, Eq, Structural)]
pub enum CaptureState {
    Starting,
    Running,
    Stopping,
    Exited(i32),
    Failed(FailReason),
}

/// How a capture's process ended, as its worker saw it after waiting on it.
#[derive(Clone, Copy, Debug, PartialEq, Eq, Structural)]
pub enum ExitReport {
    Exited(i32),
    Signaled,
    WaitFailed,
    StreamBroken,
}

/// A capture process could not be started.
#[derive(Clone, Debug)]
pub enum LaunchError {
    /// The operating system refused to start the process; the cause in words.
    Spawn(String),
    /// Every identifier has been handed out.
    IdsExhausted,
}

/// The supervisor's record of one capture.
#[derive(Clone, Copy, Debug, PartialEq, Eq, Structural)]
pub struct CaptureHandle {
    pub id: CaptureId,
    /// Process identity given by the operating system.
    pub pid: u32,
    pub state: CaptureState,
}

impl CaptureHandle {
    /// A handle for a process that has just been started.
    pub fn new(id: CaptureId, pid: u32) -> (r: CaptureHandle)
        ensures
            r == (CaptureHandle { id, pid, state: CaptureState::Starting }),
    {
        CaptureHandle { id, pid, state: CaptureState::Starting }
    }
}

/// A process that shutdown must terminate and wait on.
#[derive(Clone, Copy, Debug, PartialEq, Eq, Structural)]
pub struct StopOrder {
    pub id: CaptureId,
    pub pid: u32,
}

/// Captures whose process did not end within the shutdown bound, in
/// registry order.
#[derive(Clone, Debug)]
pub struct ShutdownTimeoutError {
    pub ids: Vec<CaptureId>,
}

pub open spec fn is_resolved(s: CaptureState) -> bool {
    s is Exited || s is Failed
}

impl CaptureState {
    /// Whether the capture has ended, cleanly or not.
    pub fn is_resolved(&self) -> (r: bool)
        ensures
            r == is_resolved(*self),
    {
        match self {
            CaptureState::Exited(_) => true,
            CaptureState::Failed(_) => true,
            _ => false,
        }
    }
}

fn resolved(s: CaptureState) -> (r: bool)
    ensures
        r == is_resolved(s),
{
    s.is_resolved()
}

/// The state a capture ends in, given how its process ended.
pub open spec fn exit_state(r: ExitReport) -> CaptureState {
    match r {
        ExitReport::Exited(code) => CaptureState::Exited(code),
        ExitReport::Signaled => CaptureState::Failed(FailReason::Signaled),
        ExitReport::WaitFailed => CaptureState::Failed(FailReason::WaitFailed),
        ExitReport::StreamBroken => CaptureState::Failed(FailReason::StreamBroken),
    }
}

/// State of capture `id` in the registry `hs`, if it is there.
pub open spec fn lookup(hs: Seq<CaptureHandle>, id: CaptureId) -> Option<CaptureState>
    decreases hs.len(),
{
    if hs.len() == 0 {
        None
    } else if hs.last().id == id {
        Some(hs.last().state)
    } else {
        lookup(hs.drop_last(), id)
    }
}

/// Identifiers in the registry are distinct.
pub open spec fn ids_distinct(hs: Seq<CaptureHandle>) -> bool {
    forall|i: int, j: int| 0 <= i < j < hs.len() ==> hs[i].id != hs[j].id
}

/// The registry after the worker of `id` reported how its process ended; a
/// capture already resolved keeps its state.
pub open spec fn with_exit(hs: Seq<CaptureHandle>, id: CaptureId, r: ExitReport) -> Seq<
    CaptureHandle,
> {
    hs.map_values(
        |h: CaptureHandle|
            if h.id == id && !is_resolved(h.state) {
                CaptureHandle { state: exit_state(r), ..h }
            } else {
                h
            },
    )
}

/// The registry once shutdown began: every unresolved capture is stopping.
pub open spec fn stop_marked(hs: Seq<CaptureHandle>) -> Seq<CaptureHandle> {
    hs.map_values(
        |h: CaptureHandle|
            if is_resolved(h.state) {
                h
            } else {
                CaptureHandle { state: CaptureState::Stopping, ..h }
            },
    )
}

/// The processes shutdown terminates: the unresolved captures, in registry
/// order.
pub open spec fn stop_orders(hs: Seq<CaptureHandle>) -> Seq<StopOrder>
    decreases hs.len(),
{
    if hs.len() == 0 {
        seq![]
    } else if is_resolved(hs.last().state) {
        stop_orders(hs.drop_last())
    } else {
        stop_orders(hs.drop_last()).push(StopOrder { id: hs.last().id, pid: hs.last().pid })
    }
}

/// The registry once the shutdown bound passed for the captures `ids`: those
/// still unresolved have failed.
pub open spec fn expired(hs: Seq<CaptureHandle>, ids: Seq<CaptureId>) -> Seq<CaptureHandle> {
    hs.map_values(
        |h: CaptureHandle|
            if ids.contains(h.id) && !is_resolved(h.state) {
                CaptureHandle { state: CaptureState::Failed(FailReason::TerminationTimedOut), ..h }
            } else {
                h
            },
    )
}

/// The captures among `ids` still unresolved, in registry order.
pub open spec fn timed_out(hs: Seq<CaptureHandle>, ids: Seq<CaptureId>) -> Seq<CaptureId>
    decreases hs.len(),
{
    if hs.len() == 0 {
        seq![]
    } else if ids.contains(hs.last().id) && !is_resolved(hs.last().state) {
        timed_out(hs.drop_last(), ids).push(hs.last().id)
    } else {
        timed_out(hs.drop_last(), ids)
    }
}

/// Owns the registry of captures, in the order they were started.
pub struct CaptureSupervisor {
    handles: Vec<CaptureHandle>,
    specs: Vec<CaptureSpec>,
    next_id: u64,
}

impl CaptureSupervisor {
    /// The registry, in insertion order.
    pub closed spec fn entries(&self) -> Seq<CaptureHandle> {
        self.handles@
    }

    /// The identifier the next capture gets.
    pub closed spec fn next_id(&self) -> u64 {
        self.next_id
    }

    pub closed spec fn wf(&self) -> bool {
        &&& self.specs@.len() == self.handles@.len()
        &&& ids_distinct(self.handles@)
        &&& forall|i: int| 0 <= i < self.handles@.len() ==> self.handles@[i].id < self.next_id
    }

    pub fn new() -> (r: CaptureSupervisor)
        ensures
            r.wf(),
            r.entries() == Seq::<CaptureHandle>::empty(),
    {
        CaptureSupervisor { handles: Vec::new(), specs: Vec::new(), next_id: 0 }
    }

    /// Number of captures in the registry.
    pub fn len(&self) -> (r: usize)
        ensures
            r == self.entries().len(),
    {
        self.handles.len()
    }

    /// Records a capture whose launch gave `launched`: on success it enters
    /// the registry as running under a fresh identifier; on failure the
    /// registry is left as it was and the error is handed back.
    pub fn start(&mut self, spec: CaptureSpec, launched: Result<u32, LaunchError>) -> (r: Result<
        CaptureId,
        LaunchError,
    >)
        requires
            old(self).wf(),
        ensures
            final(self).wf(),
            match launched {
                Err(e) => r == Err::<CaptureId, LaunchError>(e) && final(self).entries()
                    == old(self).entries(),
                Ok(pid) => if old(self).next_id() == u64::MAX {
                    r matches Err(LaunchError::IdsExhausted) && final(self).entries()
                        == old(self).entries()
                } else {
                    &&& r == Ok::<CaptureId, LaunchError>(old(self).next_id())
                    &&& lookup(old(self).entries(), old(self).next_id()) is None
                    &&& final(self).entries() == old(self).entries().push(
                        CaptureHandle {
                            id: old(self).next_id(),
                            pid,
                            state: CaptureState::Running,
                        },
                    )
                },
            },
    {
        match launched {
            Err(e) => Err(e),
            Ok(pid) => {
                if self.next_id == u64::MAX {
                    return Err(LaunchError::IdsExhausted);
                }
                let id = self.next_id;
                let mut handle = CaptureHandle::new(id, pid);
                handle.state = CaptureState::Running;
                proof {
                    lemma_lookup_absent(self.handles@, id);
                }
                self.handles.push(handle);
                self.specs.push(spec);
                self.next_id = id + 1;
                Ok(id)
            },
        }
    }

    /// State of capture `id`, if it is in the registry.
    pub fn state_of(&self, id: CaptureId) -> (r: Option<CaptureState>)
        ensures
            r == lookup(self.entries(), id),
    {
        let mut i: usize = self.handles.len();
        proof {
            assert(self.handles@.take(i as int) =~= self.handles@);
        }
        while i > 0
            invariant
                i <= self.handles@.len(),
                lookup(self.handles@, id) == lookup(self.handles@.take(i as int), id),
            decreases i,
        {
            proof {
                assert(self.handles@.take(i as int).drop_last() =~= self.handles@.take(i - 1));
            }
            i = i - 1;
            if self.handles[i].id == id {
                return Some(self.handles[i].state);
            }
        }
        None
    }

    /// What capture `id` was started from, if it is in the registry.
    pub fn spec_of(&self, id: CaptureId) -> (r: Option<&CaptureSpec>)
        requires
            self.wf(),
        ensures
            r is Some <==> lookup(self.entries(), id) is Some,
    {
        let mut i: usize = self.handles.len();
        proof {
            assert(self.handles@.take(i as int) =~= self.handles@);
        }
        while i > 0
            invariant
                i <= self.handles@.len(),
                self.specs@.len() == self.handles@.len(),
                lookup(self.handles@, id) == lookup(self.handles@.take(i as int), id),
            decreases i,
        {
            proof {
                assert(self.handles@.take(i as int).drop_last() =~= self.handles@.take(i - 1));
            }
            i = i - 1;
            if self.handles[i].id == id {
                return Some(&self.specs[i]);
            }
        }
        None
    }

    /// Records how the process of capture `id` ended, as its worker saw it
    /// after waiting on it. A capture that is not in the registry, or is
    /// already resolved, is left alone; the result says whether the
    /// registry changed.
    pub fn on_exit(&mut self, id: CaptureId, report: ExitReport) -> (r: bool)
        requires
            old(self).wf(),
        ensures
            final(self).wf(),
            final(self).next_id() == old(self).next_id(),
            final(self).entries() == with_exit(old(self).entries(), id, report),
            r == (lookup(old(self).entries(), id) matches Some(st) && !is_resolved(st)),
    {
        let ghost hs = self.handles@;
        let st = match report {
            ExitReport::Exited(code) => CaptureState::Exited(code),
            ExitReport::Signaled => CaptureState::Failed(FailReason::Signaled),
            ExitReport::WaitFailed => CaptureState::Failed(FailReason::WaitFailed),
            ExitReport::StreamBroken => CaptureState::Failed(FailReason::StreamBroken),
        };
        let mut changed = false;
        let mut i: usize = 0;
        while i < self.handles.len()
            invariant
                hs == old(self).handles@,
                i <= hs.len(),
                self.handles@.len() == hs.len(),
                self.specs == old(self).specs,
                self.next_id == old(self).next_id,
                st == exit_state(report),
                forall|j: int| 0 <= j < i ==> self.handles@[j] == with_exit(hs, id, report)[j],
                forall|j: int| i <= j < hs.len() ==> self.handles@[j] == hs[j],
                changed == exists|j: int|
                    0 <= j < i && (#[trigger] hs[j]).id == id && !is_resolved(hs[j].state),
            decreases hs.len() - i,
        {
            let h = self.handles[i];
            if h.id == id && !resolved(h.state) {
                self.handles.set(i, CaptureHandle { state: st, ..h });
                changed = true;
                proof {
                    assert(hs[i as int].id == id && !is_resolved(hs[i as int].state));
                }
            }
            i = i + 1;
        }
        proof {
            assert(self.handles@ =~= with_exit(hs, id, report));
            if changed {
                let j = choose|j: int| 0 <= j < hs.len() && hs[j].id == id && !is_resolved(hs[j].state);
                lemma_lookup_at(hs, id, j);
            } else {
                lemma_lookup_missing_or_resolved(hs, id);
            }
        }
        changed
    }

    /// First step of shutdown: every unresolved capture becomes stopping,
    /// and the processes to terminate are handed out in registry order.
    /// Resolved captures are neither ordered nor changed.
    pub fn begin_shutdown(&mut self) -> (orders: Vec<StopOrder>)
        requires
            old(self).wf(),
        ensures
            final(self).wf(),
            final(self).next_id() == old(self).next_id(),
            final(self).entries() == stop_marked(old(self).entries()),
            orders@ == stop_orders(old(self).entries()),
    {
        let ghost hs = self.handles@;
        let mut orders: Vec<StopOrder> = Vec::new();
        let mut i: usize = 0;
        proof {
            assert(hs.take(0) =~= Seq::<CaptureHandle>::empty());
        }
        while i < self.handles.len()
            invariant
                hs == old(self).handles@,
                i <= hs.len(),
                self.handles@.len() == hs.len(),
                self.specs == old(self).specs,
                self.next_id == old(self).next_id,
                forall|j: int| 0 <= j < i ==> self.handles@[j] == stop_marked(hs)[j],
                forall|j: int| i <= j < hs.len() ==> self.handles@[j] == hs[j],
                orders@ == stop_orders(hs.take(i as int)),
            decreases hs.len() - i,
        {
            proof {
                assert(hs.take(i + 1).drop_last() =~= hs.take(i as int));
            }
            let h = self.handles[i];
            if !resolved(h.state) {
                orders.push(StopOrder { id: h.id, pid: h.pid });
                self.handles.set(i, CaptureHandle { state: CaptureState::Stopping, ..h });
            }
            i = i + 1;
        }
        proof {
            assert(self.handles@ =~= stop_marked(hs));
            assert(hs.take(hs.len() as int) =~= hs);
        }
        orders
    }

    /// Last step of shutdown, once the bound has passed for the captures
    /// `ids`: those still unresolved are marked failed and reported.
    pub fn expire(&mut self, ids: &Vec<CaptureId>) -> (r: Result<(), ShutdownTimeoutError>)
        requires
            old(self).wf(),
        ensures
            final(self).wf(),
            final(self).next_id() == old(self).next_id(),
            final(self).entries() == expired(old(self).entries(), ids@),
            match r {
                Ok(_) => timed_out(old(self).entries(), ids@).len() == 0,
                Err(e) => e.ids@ == timed_out(old(self).entries(), ids@) && e.ids@.len() > 0,
            },
    {
        let ghost hs = self.handles@;
        let mut failed: Vec<CaptureId> = Vec::new();
        let mut i: usize = 0;
        proof {
            assert(hs.take(0) =~= Seq::<CaptureHandle>::empty());
        }
        while i < self.handles.len()
            invariant
                hs == old(self).handles@,
                i <= hs.len(),
                self.handles@.len() == hs.len(),
                self.specs == old(self).specs,
                self.next_id == old(self).next_id,
                forall|j: int| 0 <= j < i ==> self.handles@[j] == expired(hs, ids@)[j],
                forall|j: int| i <= j < hs.len() ==> self.handles@[j] == hs[j],
                failed@ == timed_out(hs.take(i as int), ids@),
            decreases hs.len() - i,
        {
            proof {
                assert(hs.take(i + 1).drop_last() =~= hs.take(i as int));
            }
            let h = self.handles[i];
            if contains_id(ids, h.id) && !resolved(h.state) {
                failed.push(h.id);
                self.handles.set(
                    i,
                    CaptureHandle { state: CaptureState::Failed(FailReason::TerminationTimedOut), ..h },
                );
            }
            i = i + 1;
        }
        proof {
            assert(self.handles@ =~= expired(hs, ids@));
            assert(hs.take(hs.len() as int) =~= hs);
        }
        if failed.len() == 0 {
            Ok(())
        } else {
            Err(ShutdownTimeoutError { ids: failed })
        }
    }
    /// Removes capture `id` from the registry once it is resolved; the
    /// result says whether it was removed. A capture that is still live is
    /// never dropped.
    pub fn discard(&mut self, id: CaptureId) -> (r: bool)
        requires
            old(self).wf(),
        ensures
            final(self).wf(),
            final(self).next_id() == old(self).next_id(),
            r == (lookup(old(self).entries(), id) matches Some(st) && is_resolved(st)),
            r ==> exists|i: int|
                0 <= i < old(self).entries().len() && (#[trigger] old(self).entries()[i]).id == id
                    && final(self).entries() == old(self).entries().remove(i),
            !r ==> final(self).entries() == old(self).entries(),
    {
        let ghost hs = self.handles@;
        let mut i: usize = 0;
        while i < self.handles.len()
            invariant
                hs == self.handles@,
                hs == old(self).handles@,
                self.wf(),
                self.next_id == old(self).next_id,
                i <= hs.len(),
                forall|j: int| 0 <= j < i ==> (#[trigger] hs[j]).id != id,
            decreases hs.len() - i,
        {
            if self.handles[i].id == id {
                proof {
                    lemma_lookup_at(hs, id, i as int);
                }
                if resolved(self.handles[i].state) {
                    self.handles.remove(i);
                    self.specs.remove(i);
                    proof {
                        assert forall|a: int, b: int|
                            0 <= a < b < self.handles@.len() implies self.handles@[a].id
                            != self.handles@[b].id by {
                            let a0 = if a < i { a } else { a + 1 };
                            let b0 = if b < i { b } else { b + 1 };
                            assert(self.handles@[a] == hs[a0]);
                            assert(self.handles@[b] == hs[b0]);
                        }
                        assert forall|k: int| 0 <= k < self.handles@.len() implies self.handles@[k].id
                            < self.next_id by {
                            let k0 = if k < i { k } else { k + 1 };
                            assert(self.handles@[k] == hs[k0]);
                        }
                    }
                    return true;
                }
                return false;
            }
            i = i + 1;
        }
        proof {
            lemma_lookup_missing_or_resolved(hs, id);
            lemma_lookup_none(hs, id);
        }
        false
    }
}

/// An identifier above every identifier in the registry is not found there.
proof fn lemma_lookup_absent(hs: Seq<CaptureHandle>, id: CaptureId)
    requires
        forall|i: int| 0 <= i < hs.len() ==> hs[i].id < id,
    ensures
        lookup(hs, id) is None,
    decreases hs.len(),
{
    if hs.len() > 0 {
        lemma_lookup_absent(hs.drop_last(), id);
    }

}

fn contains_id(ids: &Vec<CaptureId>, id: CaptureId) -> (r: bool)
    ensures
        r == ids@.contains(id),
{
    let mut i: usize = 0;
    while i < ids.len()
        invariant
            i <= ids@.len(),
            forall|j: int| 0 <= j < i ==> ids@[j] != id,
        decreases ids@.len() - i,
    {
        if ids[i] == id {
            return true;
        }
        i = i + 1;
    }
    false
}

proof fn lemma_lookup_at(hs: Seq<CaptureHandle>, id: CaptureId, j: int)
    requires
        ids_distinct(hs),
        0 <= j < hs.len(),
        hs[j].id == id,
    ensures
        lookup(hs, id) == Some(hs[j].state),
    decreases hs.len(),
{
    if j < hs.len() - 1 {
        assert(hs.last().id != id);
        assert(hs.drop_last()[j] == hs[j]);
        lemma_lookup_at(hs.drop_last(), id, j);
    }
}

proof fn lemma_lookup_missing_or_resolved(hs: Seq<CaptureHandle>, id: CaptureId)
    requires
        forall|j: int| 0 <= j < hs.len() && hs[j].id == id ==> is_resolved(hs[j].state),
    ensures
        !(lookup(hs, id) matches Some(st) && !is_resolved(st)),
    decreases hs.len(),
{
    if hs.len() > 0 {
        assert(hs.last() == hs[hs.len() - 1]);
        lemma_lookup_missing_or_resolved(hs.drop_last(), id);
    }
}

proof fn lemma_orders_cover(hs: Seq<CaptureHandle>, j: int)
    requires
        0 <= j < hs.len(),
        !is_resolved(hs[j].state),
    ensures
        stop_orders(hs).contains(StopOrder { id: hs[j].id, pid: hs[j].pid }),
    decreases hs.len(),
{
    let o = StopOrder { id: hs[j].id, pid: hs[j].pid };
    if j == hs.len() - 1 {
        assert(stop_orders(hs).last() == o);
    } else {
        assert(hs.drop_last()[j] == hs[j]);
        lemma_orders_cover(hs.drop_last(), j);
        let k = choose|k: int| 0 <= k < stop_orders(hs.drop_last()).len() && stop_orders(
            hs.drop_last(),
        )[k] == o;
        if !is_resolved(hs.last().state) {
            assert(stop_orders(hs)[k] == o);
        }
    }
}

proof fn lemma_all_resolved(hs: Seq<CaptureHandle>, ids: Seq<CaptureId>)
    requires
        forall|j: int| 0 <= j < hs.len() ==> is_resolved(#[trigger] hs[j].state),
    ensures
        stop_orders(hs) == Seq::<StopOrder>::empty(),
        timed_out(hs, ids) == Seq::<CaptureId>::empty(),
        stop_marked(hs) == hs,
        expired(hs, ids) == hs,
    decreases hs.len(),
{
    assert(stop_marked(hs) =~= hs);
    assert(expired(hs, ids) =~= hs);
    if hs.len() > 0 {
        assert(is_resolved(hs[hs.len() - 1].state));
        lemma_all_resolved(hs.drop_last(), ids);
    }
}

/// Shutdown is idempotent: once a shutdown has stopped every capture it
/// ordered to stop (the process ended, or the bound passed), a second
/// shutdown orders no process to stop, changes nothing and reports no
/// timeout.
pub proof fn lemma_shutdown_idempotent(hs: Seq<CaptureHandle>)
    ensures
        ({
            let ids = stop_orders(hs).map_values(|o: StopOrder| o.id);
            let after = expired(stop_marked(hs), ids);
            &&& stop_orders(after) == Seq::<StopOrder>::empty()
            &&& stop_marked(after) == after
            &&& expired(after, Seq::<CaptureId>::empty()) == after
            &&& timed_out(after, Seq::<CaptureId>::empty()) == Seq::<CaptureId>::empty()
        }),
{
    let ids = stop_orders(hs).map_values(|o: StopOrder| o.id);
    let marked = stop_marked(hs);
    let after = expired(marked, ids);
    assert forall|j: int| 0 <= j < after.len() implies is_resolved(#[trigger] after[j].state) by {
        if !is_resolved(hs[j].state) {
            lemma_orders_cover(hs, j);
            let o = StopOrder { id: hs[j].id, pid: hs[j].pid };
            let k = choose|k: int| 0 <= k < stop_orders(hs).len() && stop_orders(hs)[k] == o;
            assert(ids[k] == hs[j].id);
            assert(ids.contains(marked[j].id));
        }
    }
    lemma_all_resolved(after, Seq::<CaptureId>::empty());
}

proof fn lemma_lookup_none(hs: Seq<CaptureHandle>, id: CaptureId)
    requires
        forall|j: int| 0 <= j < hs.len() ==> (#[trigger] hs[j]).id != id,
    ensures
        lookup(hs, id) is None,
    decreases hs.len(),
{
    if hs.len() > 0 {
        assert(hs.last() == hs[hs.len() - 1]);
        lemma_lookup_none(hs.drop_last(), id);
    }
}

} // verus!
