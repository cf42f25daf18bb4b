use port_scanner::outcome::{classify, ConnectResult, StatusKind};
use port_scanner::port_range::{extract_ports, ConfigError, PortRange};
use port_scanner::result_set::ResultSet;
use port_scanner::scheduler::{ScanConfig, Scheduler, Target};

const LOCALHOST: Target = Target::V4([127, 0, 0, 1]);

fn config(start: u16, end: u16, concurrency: usize) -> ScanConfig {
    ScanConfig { target: LOCALHOST, range: PortRange { start, end }, timeout_secs: 2, concurrency }
}

/// Runs a scan in which port `open` answers and the others refuse; among the
/// probes in flight, the one at `pick(len)` completes first.
fn drive(cfg: &ScanConfig, open: Option<u16>, pick: &dyn Fn(usize) -> usize) -> ResultSet {
    let mut s = Scheduler::new(cfg);
    let mut running: Vec<u16> = Vec::new();
    loop {
        while let Some(p) = s.next_port() {
            running.push(p);
            assert!(s.in_flight_count() <= cfg.concurrency);
        }
        if running.is_empty() {
            break;
        }
        let port = running.remove(pick(running.len()));
        let result = if Some(port) == open { ConnectResult::Connected } else { ConnectResult::Refused };
        assert!(s.record(classify(port, result)));
    }
    assert!(s.is_finished());
    s.finish()
}

fn kinds(r: &ResultSet) -> Vec<(u16, StatusKind)> {
    (0..r.len()).map(|i| (r.get(i).port, r.get(i).status.kind())).collect()
}

#[test]
fn test_run_port_scan() {
    let results = drive(&config(80, 85, 4), None, &|_| 0);
    assert_eq!(results.len(), 6);
}

#[test]
fn scan_with_one_listening_port() {
    let cfg = ScanConfig::new(LOCALHOST, Some("80-85"), 2, 3).unwrap();
    let results = drive(&cfg, Some(80), &|n| n - 1);
    assert_eq!(
        kinds(&results),
        vec![
            (80, StatusKind::Open),
            (81, StatusKind::Closed),
            (82, StatusKind::Closed),
            (83, StatusKind::Closed),
            (84, StatusKind::Closed),
            (85, StatusKind::Closed)
        ]
    );
    assert!(results.is_complete());
    assert_eq!(results.count(StatusKind::Open), 1);
    assert_eq!(results.count(StatusKind::Closed), 5);
    assert_eq!(results.count(StatusKind::Error), 0);
}

#[test]
fn unreadable_range_falls_back_to_default_and_scans_1024_ports() {
    let (start, end) = extract_ports(&Some("invalid".to_string()));
    assert_eq!((start, end), (1, 1024));
    let results = drive(&config(start, end, 100), None, &|n| n / 2);
    assert_eq!(results.len(), 1024);
    assert!(results.is_complete());
    assert_eq!(results.ports(), (1..=1024).collect::<Vec<u16>>());
}

#[test]
fn each_port_once_for_every_concurrency_cap() {
    for cap in 1..=12 {
        let results = drive(&config(10, 21, cap), None, &|n| (n * 7 + 3) % n);
        assert_eq!(results.ports(), (10..=21).collect::<Vec<u16>>(), "cap {}", cap);
        assert!(results.is_complete());
    }
}

#[test]
fn order_does_not_depend_on_completion_order() {
    let first = drive(&config(1, 40, 8), Some(17), &|_| 0);
    let last = drive(&config(1, 40, 8), Some(17), &|n| n - 1);
    let middle = drive(&config(1, 40, 40), Some(17), &|n| n / 3);
    assert_eq!(kinds(&first), kinds(&last));
    assert_eq!(kinds(&first), kinds(&middle));
    assert_eq!(first.ports(), (1..=40).collect::<Vec<u16>>());
}

#[test]
fn cancel_mid_scan_returns_partial_results() {
    let cfg = ScanConfig::new(LOCALHOST, Some("1-1000"), 2, 50).unwrap();
    let mut s = Scheduler::new(&cfg);
    let mut admitted = Vec::new();
    while let Some(p) = s.next_port() {
        admitted.push(p);
    }
    assert_eq!(admitted.len(), 50);
    for &p in admitted.iter().take(30) {
        assert!(s.record(classify(p, ConnectResult::TimedOut)));
    }
    s.cancel();
    assert!(s.is_cancelled());
    assert!(s.is_finished());
    assert_eq!(s.next_port(), None);
    for &p in admitted.iter().skip(30) {
        assert!(!s.record(classify(p, ConnectResult::Connected)));
    }
    let results = s.finish();
    assert_eq!(results.len(), 30);
    assert!(results.len() < 1000);
    assert!(!results.is_complete());
}

#[test]
fn admission_respects_the_cap_and_ignores_strangers() {
    let mut s = Scheduler::new(&config(5, 9, 2));
    assert_eq!(s.next_port(), Some(5));
    assert_eq!(s.next_port(), Some(6));
    assert_eq!(s.next_port(), None);
    assert!(!s.record(classify(7, ConnectResult::Connected)));
    assert!(s.record(classify(6, ConnectResult::Connected)));
    assert!(!s.record(classify(6, ConnectResult::Connected)));
    assert_eq!(s.results().len(), 1);
    assert_eq!(s.next_port(), Some(7));
    assert!(!s.is_finished());
}

#[test]
fn a_cancel_after_the_last_port_keeps_a_complete_set() {
    let mut s = Scheduler::new(&config(5, 6, 2));
    assert_eq!(s.next_port(), Some(5));
    assert_eq!(s.next_port(), Some(6));
    assert!(s.record(classify(6, ConnectResult::Refused)));
    assert!(s.record(classify(5, ConnectResult::Refused)));
    s.cancel();
    let results = s.finish();
    assert!(results.is_complete());
    assert_eq!(results.ports(), vec![5, 6]);
}

#[test]
fn errors_are_recorded_and_the_scan_goes_on() {
    let mut s = Scheduler::new(&config(1, 3, 3));
    while s.next_port().is_some() {}
    assert!(s.record(classify(2, ConnectResult::Failed("no sockets left".to_string()))));
    assert!(s.record(classify(3, ConnectResult::Connected)));
    assert!(s.record(classify(1, ConnectResult::TimedOut)));
    let results = s.finish();
    assert!(results.is_complete());
    let errors = results.filter(StatusKind::Error);
    assert_eq!(errors.len(), 1);
    assert_eq!(errors.get(0).port, 2);
    match &errors.get(0).status {
        port_scanner::outcome::Status::Error(cause) => assert_eq!(cause, "no sockets left"),
        _ => panic!("expected an error"),
    }
    let open = results.filter(StatusKind::Open);
    assert_eq!(open.ports(), vec![3]);
    assert_eq!(results.filter(StatusKind::Closed).ports(), vec![1]);
}

#[test]
fn classify_maps_each_connect_result() {
    assert_eq!(classify(1, ConnectResult::Connected).status.kind(), StatusKind::Open);
    assert_eq!(classify(1, ConnectResult::Refused).status.kind(), StatusKind::Closed);
    assert_eq!(classify(1, ConnectResult::TimedOut).status.kind(), StatusKind::Closed);
    let e = classify(9, ConnectResult::Failed("lookup failed".to_string()));
    assert_eq!(e.port, 9);
    assert_eq!(e.status.kind(), StatusKind::Error);
    let copy = e.duplicate();
    assert_eq!(copy.port, 9);
    assert_eq!(copy.status.kind(), StatusKind::Error);
}

#[test]
fn status_labels() {
    assert_eq!(StatusKind::Open.label(), "OPEN");
    assert_eq!(StatusKind::Closed.label(), "CLOSED");
    assert_eq!(StatusKind::Error.label(), "ERROR");
}

#[test]
fn config_validation_reports_each_error() {
    assert_eq!(ScanConfig::new(LOCALHOST, Some("9-1"), 2, 5).unwrap_err(), ConfigError::InvalidRange);
    assert_eq!(ScanConfig::new(LOCALHOST, Some("x"), 0, 0).unwrap_err(), ConfigError::InvalidRange);
    assert_eq!(ScanConfig::new(LOCALHOST, None, 0, 5).unwrap_err(), ConfigError::InvalidTimeout);
    assert_eq!(ScanConfig::new(LOCALHOST, None, 2, 0).unwrap_err(), ConfigError::InvalidConcurrency);
    let c = ScanConfig::new(LOCALHOST, None, 2, 5).unwrap();
    assert_eq!((c.range.start, c.range.end), (1, 1024));
    assert_eq!(c.timeout_secs, 2);
    assert_eq!(c.concurrency, 5);
    let c = ScanConfig::new(Target::V6([0; 16]), Some("22-23"), 1, 1).unwrap();
    assert_eq!(c.range, PortRange { start: 22, end: 23 });
    assert_eq!(c.target, Target::V6([0; 16]));
}
