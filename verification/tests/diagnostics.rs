use pool_api::diagnostics::{aggregate_live_sessions, worker_is_online, SessionCounters};

fn session(worker: &str, acc: u64, low: u64, job: u64, other: u64) -> SessionCounters {
    SessionCounters {
        worker_name: worker.to_string(),
        shares_accepted: acc,
        shares_rejected_low_diff: low,
        shares_rejected_job_not_found: job,
        shares_rejected_other: other,
    }
}

#[test]
fn sessions_of_the_miner_are_summed() {
    let sessions = vec![
        session("t1miner.rig1", 10, 1, 2, 3),
        session("t1miner.rig2", 5, 0, 1, 0),
        session("t1other.rig1", 100, 100, 100, 100),
        session("t1miner", 1, 1, 1, 1),
        session("t1minerX.rig", 1000, 0, 0, 0),
    ];
    let c = aggregate_live_sessions(&sessions, "t1miner");
    assert_eq!(c.active_sessions, 3);
    assert_eq!(c.accepted, 16);
    assert_eq!(c.rejected_low_diff, 2);
    assert_eq!(c.rejected_job_not_found, 4);
    assert_eq!(c.rejected_other, 4);
}

#[test]
fn sums_stop_at_the_largest_counter() {
    let sessions = vec![session("m.a", u64::MAX - 1, 0, 0, 0), session("m.b", 5, 0, 0, 0)];
    let c = aggregate_live_sessions(&sessions, "m");
    assert_eq!(c.accepted, u64::MAX);
    assert_eq!(c.active_sessions, 2);
    let none = aggregate_live_sessions(&sessions, "x");
    assert_eq!(none.active_sessions, 0);
    assert_eq!(none.accepted, 0);
}

#[test]
fn workers_seen_since_the_threshold_are_online() {
    let threshold = "2024-05-01 12:00:00";
    assert!(worker_is_online("2024-05-01 12:00:00", threshold));
    assert!(worker_is_online("2024-05-01 12:00:01", threshold));
    assert!(!worker_is_online("2024-05-01 11:59:59", threshold));
    assert!(!worker_is_online("2024-05-01", threshold));
    assert!(worker_is_online("2024-05-01 12:00:00.5", threshold));
    assert!(worker_is_online("anything", ""));
}
