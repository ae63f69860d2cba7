use snapfaas::worker::{
    status_of_acquire_error, AcquireError, Action, Event, Phase, RequestHandler, RequestStatus, VmError,
    RETRY_LIMIT,
};

fn drive(h: &mut RequestHandler, evs: Vec<Event>) -> Vec<Action> {
    evs.into_iter()
        .map(|ev| {
            assert!(h.expects(&ev));
            h.step(ev)
        })
        .collect()
}

#[test]
fn warm_vm_success_releases_it() {
    let mut h = RequestHandler::new();
    let acts = drive(
        &mut h,
        vec![Event::Begin, Event::Acquired { launched: true }, Event::Processed("ok".to_string())],
    );
    assert_eq!(acts, vec![Action::GetVm, Action::ProcessReq, Action::ReleaseVm("ok".to_string())]);
    assert_eq!(h.phase, Phase::Done);
    assert_eq!(h.attempts, 1);
}

#[test]
fn cold_vm_is_launched_first() {
    let mut h = RequestHandler::new();
    let acts = drive(
        &mut h,
        vec![
            Event::Begin,
            Event::Acquired { launched: false },
            Event::LaunchSucceeded,
            Event::Processed("r".to_string()),
        ],
    );
    assert_eq!(acts, vec![Action::GetVm, Action::Launch, Action::ProcessReq, Action::ReleaseVm("r".to_string())]);
}

#[test]
fn retry_exhaustion_after_five_read_failures() {
    let mut h = RequestHandler::new();
    let mut acts = Vec::new();
    for _ in 0..5 {
        acts.extend(drive(
            &mut h,
            vec![Event::Begin, Event::Acquired { launched: true }, Event::ProcessFailed(VmError::VsockRead)],
        ));
    }
    acts.extend(drive(&mut h, vec![Event::Begin]));
    assert_eq!(acts.iter().filter(|a| **a == Action::DeleteVm).count(), 5);
    assert_eq!(acts.last(), Some(&Action::Finish(RequestStatus::ProcessRequestFailed)));
    assert_eq!(acts.len(), 16);
    assert_eq!(h.attempts, RETRY_LIMIT);
    assert_eq!(h.phase, Phase::Done);
    assert!(!h.expects(&Event::Begin));
}

#[test]
fn launch_failure_counts_as_attempt() {
    let mut h = RequestHandler::new();
    let acts = drive(
        &mut h,
        vec![
            Event::Begin,
            Event::Acquired { launched: false },
            Event::LaunchFailed(VmError::ProcessSpawn),
            Event::Begin,
            Event::Acquired { launched: true },
            Event::Processed("x".to_string()),
        ],
    );
    assert_eq!(acts[2], Action::DeleteVm);
    assert_eq!(acts[3], Action::GetVm);
    assert_eq!(h.attempts, 2);
}

#[test]
fn acquire_errors_are_terminal() {
    let cases: Vec<(AcquireError, fn() -> RequestStatus)> = vec![
        (AcquireError::InsufficientEvict, || RequestStatus::ResourceExhausted),
        (AcquireError::LowMemory(256), || RequestStatus::ResourceExhausted),
        (AcquireError::FunctionNotExist, || RequestStatus::FunctionNotExist),
        (AcquireError::Other, || RequestStatus::Dropped),
    ];
    for (e, st) in cases {
        assert_eq!(status_of_acquire_error(e), st());
        let mut h = RequestHandler::new();
        let acts = drive(&mut h, vec![Event::Begin, Event::AcquireFailed(e)]);
        assert_eq!(acts, vec![Action::GetVm, Action::Finish(st())]);
        assert_eq!(h.phase, Phase::Done);
    }
}

#[test]
fn unexpected_events_are_not_accepted() {
    let h = RequestHandler::new();
    assert!(!h.expects(&Event::LaunchSucceeded));
    assert!(!h.expects(&Event::Processed(String::new())));
}
