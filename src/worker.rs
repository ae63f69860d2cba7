//! The decisions a worker takes while it serves one invocation: acquire a
//! VM, launch it if it is cold, hand it the request, then release it on
//! success or delete it on failure, retrying a bounded number of times.
//!
//! The worker's thread performs each action and feeds back what came of it.

use vstd::prelude::*;

verus! {

/// How many VM acquire, launch and invoke attempts one invocation gets.
pub const RETRY_LIMIT: u32 = 5;

/// Why the local resource manager could not hand out a VM.
#[derive(Clone, Copy, Debug, PartialEq, Eq, Structural)]
pub enum AcquireError {
    InsufficientEvict,
    /// The VM needs more memory than the node has (in MiB).
    LowMemory(usize),
    FunctionNotExist,
    /// Any other failure of the resource manager.
    Other,
}

/// Why a VM failed to launch or to process a request.
#[derive(Clone, Copy, Debug, PartialEq, Eq, Structural)]
pub enum VmError {
    ProcessSpawn,
    VsockListen,
    VsockRead,
    VsockWrite,
    Other,
}

/// The outcome of an invocation, as reported to its caller.
#[derive(Debug, PartialEq, Eq)]
pub enum RequestStatus {
    SentToVM(String),
    ProcessRequestFailed,
    ResourceExhausted,
    FunctionNotExist,
    Dropped,
    Terminated,
}

/// Where the handling of one invocation stands.
#[derive(Clone, Copy, Debug, PartialEq, Eq, Structural)]
pub enum Phase {
    /// About to start an attempt.
    Ready,
    /// Waiting for the resource manager's VM.
    Acquiring,
    /// Waiting for a cold VM to launch.
    Launching,
    /// Waiting for the VM's response.
    Invoking,
    /// The outcome is known.
    Done,
}

/// What came of the last action.
#[derive(Debug, PartialEq, Eq)]
pub enum Event {
    /// Start an attempt (first, or after a failed VM was deleted).
    Begin,
    /// The resource manager handed out a VM, already launched or not.
    Acquired { launched: bool },
    AcquireFailed(AcquireError),
    LaunchSucceeded,
    LaunchFailed(VmError),
    /// The VM's response to the request.
    Processed(String),
    ProcessFailed(VmError),
}

/// What the worker does next.
#[derive(Debug, PartialEq, Eq)]
pub enum Action {
    /// Ask the local resource manager for a VM of the function's image.
    GetVm,
    /// Launch the cold VM.
    Launch,
    /// Hand the request's payload to the VM.
    ProcessReq,
    /// Delete the failed VM to return its memory, then begin again.
    DeleteVm,
    /// Return the VM to the warm cache and report `SentToVM` of the response.
    ReleaseVm(String),
    /// Report the outcome; no VM is held.
    Finish(RequestStatus),
}

/// The state of one invocation's handling.
#[derive(Clone, Copy, Debug, PartialEq, Eq, Structural)]
pub struct RequestHandler {
    /// Attempts begun so far.
    pub attempts: u32,
    pub phase: Phase,
}

/// The status reported when no VM could be had: not retried.
pub open spec fn acquire_status(e: AcquireError) -> RequestStatus {
    match e {
        AcquireError::InsufficientEvict | AcquireError::LowMemory(_) => RequestStatus::ResourceExhausted,
        AcquireError::FunctionNotExist => RequestStatus::FunctionNotExist,
        AcquireError::Other => RequestStatus::Dropped,
    }
}

/// Maps a resource manager's refusal to the status the caller sees.
pub fn status_of_acquire_error(e: AcquireError) -> (r: RequestStatus)
    ensures
        r == acquire_status(e),
{
    match e {
        AcquireError::InsufficientEvict | AcquireError::LowMemory(_) => RequestStatus::ResourceExhausted,
        AcquireError::FunctionNotExist => RequestStatus::FunctionNotExist,
        AcquireError::Other => RequestStatus::Dropped,
    }
}

/// The events that the handler can take in each phase.
pub open spec fn expected(p: Phase, ev: Event) -> bool {
    match p {
        Phase::Ready => ev is Begin,
        Phase::Acquiring => ev is Acquired || ev is AcquireFailed,
        Phase::Launching => ev is LaunchSucceeded || ev is LaunchFailed,
        Phase::Invoking => ev is Processed || ev is ProcessFailed,
        Phase::Done => false,
    }
}

/// One transition: the next state and the action to perform.
pub open spec fn next(s: RequestHandler, ev: Event) -> (RequestHandler, Action) {
    match ev {
        Event::Begin => if s.attempts >= RETRY_LIMIT {
            (RequestHandler { phase: Phase::Done, ..s }, Action::Finish(RequestStatus::ProcessRequestFailed))
        } else {
            (RequestHandler { attempts: (s.attempts + 1) as u32, phase: Phase::Acquiring }, Action::GetVm)
        },
        Event::Acquired { launched } => if launched {
            (RequestHandler { phase: Phase::Invoking, ..s }, Action::ProcessReq)
        } else {
            (RequestHandler { phase: Phase::Launching, ..s }, Action::Launch)
        },
        Event::AcquireFailed(e) => (RequestHandler { phase: Phase::Done, ..s }, Action::Finish(acquire_status(e))),
        Event::LaunchSucceeded => (RequestHandler { phase: Phase::Invoking, ..s }, Action::ProcessReq),
        Event::LaunchFailed(_) => (RequestHandler { phase: Phase::Ready, ..s }, Action::DeleteVm),
        Event::Processed(resp) => (RequestHandler { phase: Phase::Done, ..s }, Action::ReleaseVm(resp)),
        Event::ProcessFailed(_) => (RequestHandler { phase: Phase::Ready, ..s }, Action::DeleteVm),
    }
}

/// The state and the actions after a sequence of events, in order.
pub open spec fn run(s: RequestHandler, evs: Seq<Event>) -> (RequestHandler, Seq<Action>)
    decreases evs.len(),
{
    if evs.len() == 0 {
        (s, Seq::empty())
    } else {
        let (s1, a) = next(s, evs[0]);
        let (s2, rest) = run(s1, evs.drop_first());
        (s2, seq![a] + rest)
    }
}

/// One attempt whose warm VM fails to process the request.
pub open spec fn failed_round(e: VmError) -> Seq<Event> {
    seq![Event::Begin, Event::Acquired { launched: true }, Event::ProcessFailed(e)]
}

/// Consecutive failed attempts, one for each error in `errs`.
pub open spec fn failed_rounds(errs: Seq<VmError>) -> Seq<Event>
    decreases errs.len(),
{
    if errs.len() == 0 {
        Seq::empty()
    } else {
        failed_round(errs[0]) + failed_rounds(errs.drop_first())
    }
}

/// The actions of `n` failed attempts: each gets a VM, hands it the request,
/// and deletes it.
pub open spec fn failed_actions(n: nat) -> Seq<Action>
    decreases n,
{
    if n == 0 {
        Seq::empty()
    } else {
        seq![Action::GetVm, Action::ProcessReq, Action::DeleteVm] + failed_actions((n - 1) as nat)
    }
}

proof fn lemma_failed_rounds(s: RequestHandler, errs: Seq<VmError>)
    requires
        s.phase == Phase::Ready,
        s.attempts + errs.len() == RETRY_LIMIT,
    ensures
        run(s, failed_rounds(errs).push(Event::Begin)) == (
            RequestHandler { attempts: RETRY_LIMIT, phase: Phase::Done },
            failed_actions(errs.len()).push(Action::Finish(RequestStatus::ProcessRequestFailed)),
        ),
    decreases errs.len(),
{
    let evs = failed_rounds(errs).push(Event::Begin);
    if errs.len() == 0 {
        assert(evs =~= seq![Event::Begin]);
        assert(evs.drop_first() =~= Seq::<Event>::empty());
        assert(evs[0] == Event::Begin);
        let s1 = next(s, Event::Begin).0;
        assert(run(s1, evs.drop_first()) == (s1, Seq::<Action>::empty()));
        assert(run(s, evs).1 =~= seq![Action::Finish(RequestStatus::ProcessRequestFailed)]);
        assert(failed_actions(0) =~= Seq::<Action>::empty());
        assert(failed_actions(errs.len()).push(Action::Finish(RequestStatus::ProcessRequestFailed)) =~= seq![
            Action::Finish(RequestStatus::ProcessRequestFailed),
        ]);
    } else {
        let rest = failed_rounds(errs.drop_first()).push(Event::Begin);
        let s1 = RequestHandler { attempts: (s.attempts + 1) as u32, phase: Phase::Acquiring };
        let s2 = RequestHandler { phase: Phase::Invoking, ..s1 };
        let s3 = RequestHandler { phase: Phase::Ready, ..s1 };
        assert(evs =~= failed_round(errs[0]) + rest);
        let e1 = evs.drop_first();
        let e2 = e1.drop_first();
        let e3 = e2.drop_first();
        assert(e1 =~= seq![Event::Acquired { launched: true }, Event::ProcessFailed(errs[0])] + rest);
        assert(e2 =~= seq![Event::ProcessFailed(errs[0])] + rest);
        assert(e3 =~= rest);
        lemma_failed_rounds(s3, errs.drop_first());
        assert(run(s2, e2) == (run(s3, rest).0, seq![Action::DeleteVm] + run(s3, rest).1));
        assert(run(s1, e1) == (run(s3, rest).0, seq![Action::ProcessReq] + (seq![Action::DeleteVm] + run(
            s3,
            rest,
        ).1)));
        let fin = Action::Finish(RequestStatus::ProcessRequestFailed);
        assert(run(s, evs).1 =~= seq![Action::GetVm, Action::ProcessReq, Action::DeleteVm]
            + failed_actions((errs.len() - 1) as nat).push(fin));
        assert(failed_actions(errs.len()).push(fin) =~= seq![Action::GetVm, Action::ProcessReq, Action::DeleteVm]
            + failed_actions((errs.len() - 1) as nat).push(fin));
    }
}

/// A request whose VM fails to process it on every attempt ends, after
/// `RETRY_LIMIT` attempts whose VMs are each deleted, as
/// `ProcessRequestFailed`.
pub proof fn lemma_retry_exhaustion(errs: Seq<VmError>)
    requires
        errs.len() == RETRY_LIMIT,
    ensures
        run(RequestHandler::fresh(), failed_rounds(errs).push(Event::Begin)) == (
            RequestHandler { attempts: RETRY_LIMIT, phase: Phase::Done },
            failed_actions(RETRY_LIMIT as nat).push(Action::Finish(RequestStatus::ProcessRequestFailed)),
        ),
{
    lemma_failed_rounds(RequestHandler::fresh(), errs);
}

impl RequestHandler {
    pub open spec fn fresh() -> RequestHandler {
        RequestHandler { attempts: 0, phase: Phase::Ready }
    }

    pub open spec fn wf(&self) -> bool {
        self.attempts <= RETRY_LIMIT
    }

    /// A handler for a newly received invocation.
    pub fn new() -> (r: RequestHandler)
        ensures
            r == RequestHandler::fresh(),
            r.wf(),
    {
        RequestHandler { attempts: 0, phase: Phase::Ready }
    }

    /// Whether `ev` can come in the current phase.
    pub fn expects(&self, ev: &Event) -> (r: bool)
        ensures
            r == expected(self.phase, *ev),
    {
        match self.phase {
            Phase::Ready => matches!(ev, Event::Begin),
            Phase::Acquiring => matches!(ev, Event::Acquired { .. } | Event::AcquireFailed(_)),
            Phase::Launching => matches!(ev, Event::LaunchSucceeded | Event::LaunchFailed(_)),
            Phase::Invoking => matches!(ev, Event::Processed(_) | Event::ProcessFailed(_)),
            Phase::Done => false,
        }
    }

    /// Takes in what came of the last action and says what to do next.
    pub fn step(&mut self, ev: Event) -> (r: Action)
        requires
            old(self).wf(),
            expected(old(self).phase, ev),
        ensures
            final(self).wf(),
            (*final(self), r) == next(*old(self), ev),
    {
        match ev {
            Event::Begin => {
                if self.attempts >= RETRY_LIMIT {
                    self.phase = Phase::Done;
                    Action::Finish(RequestStatus::ProcessRequestFailed)
                } else {
                    self.attempts = self.attempts + 1;
                    self.phase = Phase::Acquiring;
                    Action::GetVm
                }
            },
            Event::Acquired { launched } => {
                if launched {
                    self.phase = Phase::Invoking;
                    Action::ProcessReq
                } else {
                    self.phase = Phase::Launching;
                    Action::Launch
                }
            },
            Event::AcquireFailed(e) => {
                self.phase = Phase::Done;
                Action::Finish(status_of_acquire_error(e))
            },
            Event::LaunchSucceeded => {
                self.phase = Phase::Invoking;
                Action::ProcessReq
            },
            Event::LaunchFailed(_) => {
                self.phase = Phase::Ready;
                Action::DeleteVm
            },
            Event::Processed(resp) => {
                self.phase = Phase::Done;
                Action::ReleaseVm(resp)
            },
            Event::ProcessFailed(_) => {
                self.phase = Phase::Ready;
                Action::DeleteVm
            },
        }
    }
}

} // verus!
