use portscan::engine::{Job, Scan, ScanError, Slot};
use portscan::outcome::{aggregate, ScanOutcome, ScanResult};

/// Drives a scan to completion, answering each job with `outcome_of(port)`,
/// and returns the result with the largest number of attempts seen in flight.
fn run(ports: Vec<u16>, limit: usize, outcome_of: &dyn Fn(u16) -> ScanOutcome) -> (ScanResult, usize) {
    let mut scan = Scan::new(ports, limit).unwrap();
    let mut running: Vec<Job> = Vec::new();
    let mut most: usize = 0;
    while !scan.is_complete() {
        while let Some(job) = scan.dispatch() {
            running.push(job);
            most = most.max(scan.in_flight_count());
        }
        // Finish the oldest attempt in flight.
        let job = running.remove(0);
        scan.report(job.slot, outcome_of(job.port)).unwrap();
    }
    (scan.finish(), most)
}

fn sorted(mut v: Vec<u16>) -> Vec<u16> {
    v.sort();
    v
}

#[test]
fn listening_and_silent_port() {
    let (r, _) = run(vec![80, 81], 10, &|p| if p == 80 { ScanOutcome::Open } else { ScanOutcome::NonOpen });
    assert_eq!(r.open_ports, vec![80]);
    assert_eq!(r.non_open_ports, vec![81]);
}

#[test]
fn empty_input_gives_empty_result() {
    let scan = Scan::new(vec![], 10).unwrap();
    assert!(scan.is_complete());
    let r = scan.finish();
    assert!(r.open_ports.is_empty());
    assert!(r.non_open_ports.is_empty());
}

#[test]
fn unreachable_host_has_no_open_port() {
    let (r, _) = run(vec![22, 443], 10, &|_| ScanOutcome::NonOpen);
    assert!(r.open_ports.is_empty());
    assert_eq!(r.non_open_ports, vec![22, 443]);
}

#[test]
fn single_worker_still_scans_everything() {
    let ports: Vec<u16> = (1..=50).collect();
    let (r, most) = run(ports.clone(), 1, &|p| if p % 7 == 0 { ScanOutcome::Open } else { ScanOutcome::NonOpen });
    assert_eq!(most, 1);
    assert_eq!(r.open_ports, vec![7, 14, 21, 28, 35, 42, 49]);
    assert_eq!(r.non_open_ports.len(), 43);
    let mut all = r.open_ports.clone();
    all.extend(r.non_open_ports.iter().copied());
    assert_eq!(sorted(all), ports);
}

#[test]
fn in_flight_never_exceeds_limit() {
    let ports: Vec<u16> = (1000..1100).collect();
    for limit in [1usize, 3, 10, 200] {
        let (r, most) = run(ports.clone(), limit, &|_| ScanOutcome::NonOpen);
        assert_eq!(most, limit.min(100));
        assert_eq!(r.non_open_ports.len(), 100);
    }
}

#[test]
fn partition_covers_input_without_overlap() {
    let ports: Vec<u16> = vec![21, 22, 25, 53, 80, 110, 143, 443, 993, 3306];
    let (r, _) = run(ports.clone(), 4, &|p| if p < 100 { ScanOutcome::Open } else { ScanOutcome::NonOpen });
    for p in &r.open_ports {
        assert!(!r.non_open_ports.contains(p));
    }
    let mut all = r.open_ports.clone();
    all.extend(r.non_open_ports.iter().copied());
    assert_eq!(all.len(), ports.len());
    assert_eq!(sorted(all), sorted(ports));
}

#[test]
fn repeated_scans_classify_alike() {
    let outcome = |p: u16| if p == 8080 { ScanOutcome::Open } else { ScanOutcome::NonOpen };
    for _ in 0..5 {
        let (r, _) = run(vec![8080, 8081], 2, &outcome);
        assert_eq!(r.open_ports, vec![8080]);
        assert_eq!(r.non_open_ports, vec![8081]);
    }
}

#[test]
fn zero_concurrency_is_refused() {
    assert!(matches!(Scan::new(vec![80], 0), Err(ScanError::ZeroConcurrency)));
}

#[test]
fn report_of_unknown_job_is_refused() {
    let mut scan = Scan::new(vec![80, 81], 1).unwrap();
    assert_eq!(scan.report(0, ScanOutcome::Open), Err(ScanError::UnknownJob));
    let job = scan.dispatch().unwrap();
    assert_eq!(job, Job { slot: 0, port: 80 });
    assert_eq!(scan.report(5, ScanOutcome::Open), Err(ScanError::UnknownJob));
    assert_eq!(scan.report(1, ScanOutcome::Open), Err(ScanError::UnknownJob));
    assert_eq!(scan.report(0, ScanOutcome::Open), Ok(()));
    assert_eq!(scan.report(0, ScanOutcome::NonOpen), Err(ScanError::UnknownJob));
    assert_eq!(scan.in_flight_count(), 0);
    assert!(!scan.is_complete());
}

#[test]
fn dispatch_follows_queue_order_and_limit() {
    let mut scan = Scan::new(vec![443, 22, 80], 2).unwrap();
    assert_eq!(scan.dispatch(), Some(Job { slot: 0, port: 443 }));
    assert_eq!(scan.dispatch(), Some(Job { slot: 1, port: 22 }));
    assert_eq!(scan.dispatch(), None);
    assert_eq!(scan.report(1, ScanOutcome::Open), Ok(()));
    assert_eq!(scan.dispatch(), Some(Job { slot: 2, port: 80 }));
    assert_eq!(scan.dispatch(), None);
    assert_eq!(scan.report(0, ScanOutcome::NonOpen), Ok(()));
    assert_eq!(scan.report(2, ScanOutcome::Open), Ok(()));
    assert!(scan.is_complete());
    let r = scan.finish();
    assert_eq!(r.open_ports, vec![22, 80]);
    assert_eq!(r.non_open_ports, vec![443]);
}

#[test]
fn aggregate_splits_by_outcome() {
    let r = aggregate(&vec![1, 2, 3, 4], &vec![ScanOutcome::NonOpen, ScanOutcome::Open, ScanOutcome::Open, ScanOutcome::NonOpen]);
    assert_eq!(r.open_ports, vec![2, 3]);
    assert_eq!(r.non_open_ports, vec![1, 4]);
}

#[test]
fn outcome_from_connect_result() {
    assert_eq!(ScanOutcome::from_connected(true), ScanOutcome::Open);
    assert_eq!(ScanOutcome::from_connected(false), ScanOutcome::NonOpen);
    assert_ne!(Slot::Running, Slot::Done(ScanOutcome::Open));
}
