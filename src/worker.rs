use vstd::prelude::*;

verus! {

/// Where a device worker stands.
#[derive(Clone, Copy, Debug, PartialEq, Eq, Structural)]
pub enum WorkerPhase {
    /// Initialising the controller and turning its LEDs off.
    Init,
    /// Running frames.
    Running,
    /// Stopped for good; its completion has been signalled.
    Done,
}

/// What the worker learns from the outside, one at a time.
#[derive(Clone, Copy, Debug, PartialEq, Eq, Structural)]
pub enum WorkerEvent {
    /// The controller's initialisation and turn-off calls succeeded.
    InitOk,
    /// One of them failed: the device is presumed gone.
    InitFailed,
    /// The channel of input events was found disconnected.
    InputClosed,
    /// A frame's batched color command went through.
    ExecuteOk,
    /// A frame's batched color command failed.
    ExecuteFailed,
}

pub open spec fn is_failure(e: WorkerEvent) -> bool {
    e == WorkerEvent::InitFailed || e == WorkerEvent::InputClosed || e == WorkerEvent::ExecuteFailed
}

/// The phase after an event: `Init` moves to `Running` on success; any failure
/// ends the worker; `Done` never changes.
pub open spec fn next_phase_of(p: WorkerPhase, e: WorkerEvent) -> WorkerPhase {
    match p {
        WorkerPhase::Done => WorkerPhase::Done,
        WorkerPhase::Init => if is_failure(e) {
            WorkerPhase::Done
        } else if e == WorkerEvent::InitOk {
            WorkerPhase::Running
        } else {
            WorkerPhase::Init
        },
        WorkerPhase::Running => if is_failure(e) {
            WorkerPhase::Done
        } else {
            WorkerPhase::Running
        },
    }
}

/// The phase after a run of events, and how many completion signals it sent.
pub open spec fn run_phases(p: WorkerPhase, es: Seq<WorkerEvent>) -> (WorkerPhase, nat)
    decreases es.len(),
{
    if es.len() == 0 {
        (p, 0)
    } else {
        let q = next_phase_of(p, es[0]);
        let rest = run_phases(q, es.drop_first());
        let sent: nat = if p != WorkerPhase::Done && q == WorkerPhase::Done {
            1
        } else {
            0
        };
        (rest.0, rest.1 + sent)
    }
}

/// Steps a worker: returns its next phase, and whether the completion signal
/// must be sent now, which is exactly when the worker stops.
pub fn step_worker(phase: WorkerPhase, event: WorkerEvent) -> (r: (WorkerPhase, bool))
    ensures
        r.0 == next_phase_of(phase, event),
        r.1 == (phase != WorkerPhase::Done && r.0 == WorkerPhase::Done),
{
    let failed = match event {
        WorkerEvent::InitFailed | WorkerEvent::InputClosed | WorkerEvent::ExecuteFailed => true,
        _ => false,
    };
    let next = match phase {
        WorkerPhase::Done => WorkerPhase::Done,
        WorkerPhase::Init => if failed {
            WorkerPhase::Done
        } else if let WorkerEvent::InitOk = event {
            WorkerPhase::Running
        } else {
            WorkerPhase::Init
        },
        WorkerPhase::Running => if failed {
            WorkerPhase::Done
        } else {
            WorkerPhase::Running
        },
    };
    let signal = match phase {
        WorkerPhase::Done => false,
        _ => match next {
            WorkerPhase::Done => true,
            _ => false,
        },
    };
    (next, signal)
}

proof fn lemma_done_stays(es: Seq<WorkerEvent>)
    ensures
        run_phases(WorkerPhase::Done, es) == (WorkerPhase::Done, 0nat),
    decreases es.len(),
{
    if es.len() > 0 {
        lemma_done_stays(es.drop_first());
    }
}

/// Whatever happens, a worker signals completion at most once; once any
/// failure has happened it has stopped and signalled exactly once.
pub proof fn lemma_signal_once(p: WorkerPhase, es: Seq<WorkerEvent>)
    requires
        p != WorkerPhase::Done,
    ensures
        run_phases(p, es).1 <= 1,
        run_phases(p, es).0 == WorkerPhase::Done <==> run_phases(p, es).1 == 1,
        (exists|i: int| 0 <= i < es.len() && is_failure(#[trigger] es[i])) ==> run_phases(p, es)
            == (WorkerPhase::Done, 1nat),
    decreases es.len(),
{
    if es.len() > 0 {
        let q = next_phase_of(p, es[0]);
        if q == WorkerPhase::Done {
            lemma_done_stays(es.drop_first());
        } else {
            lemma_signal_once(q, es.drop_first());
            if exists|i: int| 0 <= i < es.len() && is_failure(#[trigger] es[i]) {
                let i = choose|i: int| 0 <= i < es.len() && is_failure(#[trigger] es[i]);
                assert(i != 0);
                assert(es.drop_first()[i - 1] == es[i]);
            }
        }
    }
}

} // verus!
