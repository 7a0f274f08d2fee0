use capture_supervisor::launch::CaptureSpec;
use capture_supervisor::supervisor::{
    CaptureHandle, CaptureState, CaptureSupervisor, ExitReport, FailReason, LaunchError, StopOrder,
};

fn spec() -> CaptureSpec {
    CaptureSpec::new("rtsp://camera.local/stream", "out.ts")
}

#[test]
fn start_exit_and_shutdown() {
    assert_eq!(CaptureHandle::new(0, 41).state, CaptureState::Starting);
    let mut sup = CaptureSupervisor::new();
    let id = sup.start(spec(), Ok(41)).unwrap();
    assert_eq!(sup.state_of(id), Some(CaptureState::Running));
    assert!(sup.on_exit(id, ExitReport::Exited(0)));
    assert_eq!(sup.state_of(id), Some(CaptureState::Exited(0)));
    let orders = sup.begin_shutdown();
    assert!(orders.is_empty());
    assert!(sup.expire(&Vec::new()).is_ok());
    assert_eq!(sup.state_of(id), Some(CaptureState::Exited(0)));
}

#[test]
fn failed_launch_leaves_registry_alone() {
    let mut sup = CaptureSupervisor::new();
    let a = sup.start(spec(), Ok(10)).unwrap();
    let r = sup.start(spec(), Err(LaunchError::Spawn("No such file or directory".to_string())));
    assert!(matches!(r, Err(LaunchError::Spawn(ref m)) if m == "No such file or directory"));
    assert_eq!(sup.len(), 1);
    assert_eq!(sup.state_of(a), Some(CaptureState::Running));
    let b = sup.start(spec(), Ok(11)).unwrap();
    assert_ne!(a, b);
    assert_eq!(sup.len(), 2);
}

#[test]
fn shutdown_twice_terminates_once() {
    let mut sup = CaptureSupervisor::new();
    let a = sup.start(spec(), Ok(10)).unwrap();
    let b = sup.start(spec(), Ok(11)).unwrap();
    let orders = sup.begin_shutdown();
    assert_eq!(orders, vec![StopOrder { id: a, pid: 10 }, StopOrder { id: b, pid: 11 }]);
    assert_eq!(sup.state_of(a), Some(CaptureState::Stopping));
    assert!(sup.on_exit(a, ExitReport::Signaled));
    let ids: Vec<u64> = orders.iter().map(|o| o.id).collect();
    let err = sup.expire(&ids).unwrap_err();
    assert_eq!(err.ids, vec![b]);
    assert_eq!(sup.state_of(a), Some(CaptureState::Failed(FailReason::Signaled)));
    assert_eq!(
        sup.state_of(b),
        Some(CaptureState::Failed(FailReason::TerminationTimedOut))
    );
    let again = sup.begin_shutdown();
    assert!(again.is_empty());
    assert!(sup.expire(&Vec::new()).is_ok());
}

#[test]
fn shutdown_orders_only_live_captures_in_start_order() {
    let mut sup = CaptureSupervisor::new();
    let a = sup.start(spec(), Ok(1)).unwrap();
    let b = sup.start(spec(), Ok(2)).unwrap();
    let c = sup.start(spec(), Ok(3)).unwrap();
    assert!(sup.on_exit(b, ExitReport::StreamBroken));
    let orders = sup.begin_shutdown();
    assert_eq!(orders, vec![StopOrder { id: a, pid: 1 }, StopOrder { id: c, pid: 3 }]);
    assert!(sup.on_exit(a, ExitReport::Exited(255)));
    assert!(sup.on_exit(c, ExitReport::WaitFailed));
    let ids: Vec<u64> = orders.iter().map(|o| o.id).collect();
    assert!(sup.expire(&ids).is_ok());
    assert_eq!(sup.state_of(a), Some(CaptureState::Exited(255)));
    assert_eq!(sup.state_of(b), Some(CaptureState::Failed(FailReason::StreamBroken)));
    assert_eq!(sup.state_of(c), Some(CaptureState::Failed(FailReason::WaitFailed)));
}

#[test]
fn exit_report_does_not_override_resolved_state() {
    let mut sup = CaptureSupervisor::new();
    let a = sup.start(spec(), Ok(5)).unwrap();
    assert!(sup.on_exit(a, ExitReport::Exited(1)));
    assert!(!sup.on_exit(a, ExitReport::Exited(0)));
    assert!(!sup.on_exit(a + 100, ExitReport::Exited(0)));
    assert_eq!(sup.state_of(a), Some(CaptureState::Exited(1)));
}

#[test]
fn discard_only_resolved_captures() {
    let mut sup = CaptureSupervisor::new();
    let a = sup.start(spec(), Ok(5)).unwrap();
    let b = sup.start(CaptureSpec::new("rtsp://other", "b.ts"), Ok(6)).unwrap();
    assert!(!sup.discard(a));
    assert!(sup.on_exit(a, ExitReport::Exited(0)));
    assert!(sup.discard(a));
    assert_eq!(sup.state_of(a), None);
    assert!(sup.spec_of(a).is_none());
    assert_eq!(sup.spec_of(b).unwrap().source, "rtsp://other");
    assert_eq!(sup.len(), 1);
}
