use pool_api::handlers::{
    last_block_found_secs, round_shares_since,
    health_report, immature_rows, last_template_status,
    payout_miner_label, payout_trigger, payout_trigger_message, pps_public_status, pps_status_from,
    reverse_hex, shares_counters, status_counter, stratum_url, wallet_health_from, wallet_healthy,
    zallet_status, PayoutHealthRecord, PayoutTrigger, PendingBlock, PpsHealthRecord,
    PpsMinerBalance, StatsHistory, StratumPortInfo, ZalletBalance, STATS_HISTORY_CAPACITY,
};

#[test]
fn stratum_url_names_host_and_port() {
    assert_eq!(stratum_url("pool.example.com", 3333), "stratum+tcp://pool.example.com:3333");
    assert_eq!(stratum_url("h", 0), "stratum+tcp://h:0");
    let p = StratumPortInfo { port: 3334, description: "high difficulty".to_string() };
    assert_eq!(p.clone().port, 3334);
}

#[test]
fn template_freshness_from_live_counter() {
    let (ok, at) = last_template_status(Some(1_000), None, 50_000);
    assert!(ok);
    assert_eq!(at.as_deref(), Some("1970-01-01T00:00:01+00:00"));
    let (ok, _) = last_template_status(Some(1_000), None, 91_000);
    assert!(!ok);
    let (ok, _) = last_template_status(Some(1_000), None, 90_999);
    assert!(ok);
}

#[test]
fn template_freshness_falls_back_to_the_stored_status() {
    let (ok, at) = last_template_status(Some(0), Some("1500".to_string()), 2_000);
    assert!(ok);
    assert_eq!(at.as_deref(), Some("1970-01-01T00:00:01.500+00:00"));
    let (ok, at) = last_template_status(None, Some("1500".to_string()), 200_000);
    assert!(!ok);
    assert!(at.is_some());
    // Nothing usable: stall tracking is not set up.
    assert_eq!(last_template_status(None, None, 5), (true, None));
    assert_eq!(last_template_status(None, Some("x".to_string()), 5), (true, None));
    assert_eq!(last_template_status(Some(-3), Some("0".to_string()), 5), (true, None));
}

#[test]
fn stored_counters_read_as_numbers_or_zero() {
    assert_eq!(status_counter(&Some("42".to_string())), 42);
    assert_eq!(status_counter(&Some("+7".to_string())), 7);
    assert_eq!(status_counter(&Some("-1".to_string())), 0);
    assert_eq!(status_counter(&Some("".to_string())), 0);
    assert_eq!(status_counter(&None), 0);
    assert_eq!(shares_counters(3, 0, &Some("9".into()), &Some("9".into())), (3, 0));
    assert_eq!(shares_counters(0, 0, &Some("9".into()), &None), (9, 0));
}

fn record(last_run: Option<&str>, inv: Option<bool>, lease: Option<bool>, until: Option<i64>) -> PpsHealthRecord {
    PpsHealthRecord {
        last_run: last_run.map(str::to_string),
        invariant_ok: inv,
        chain_lease_current: lease,
        chain_valid_until_unix: until,
    }
}

#[test]
fn fresh_pps_health_is_reported() {
    // 1970-01-01T00:01:40Z is 100 s after the epoch.
    let rec = record(Some("1970-01-01T00:01:40Z"), Some(true), Some(true), Some(1_000));
    let st = pps_public_status(&rec, 150).unwrap();
    assert!(st.invariant_ok);
    assert!(st.chain_lease_current);
    assert_eq!(st.last_checked_at, "1970-01-01T00:01:40Z");
    // The lease lapses at its deadline.
    let st = pps_public_status(&rec, 190).unwrap();
    assert!(st.invariant_ok);
    let lapsed = record(Some("1970-01-01T00:01:40Z"), Some(true), Some(true), Some(150));
    assert!(!pps_public_status(&lapsed, 150).unwrap().chain_lease_current);
}

#[test]
fn stale_or_future_pps_health_is_not_green() {
    let rec = record(Some("1970-01-01T00:01:40Z"), Some(true), Some(true), Some(1_000));
    let stale = pps_public_status(&rec, 191).unwrap();
    assert!(!stale.invariant_ok && !stale.chain_lease_current);
    let future = pps_public_status(&rec, 99).unwrap();
    assert!(!future.invariant_ok && !future.chain_lease_current);
    // Stale records need no flags at all.
    let bare = record(Some("1970-01-01T00:01:40Z"), None, None, None);
    assert!(pps_public_status(&bare, 1_000).is_some());
    assert!(pps_public_status(&bare, 120).is_none());
}

#[test]
fn unreadable_pps_health_gives_no_status() {
    assert!(pps_public_status(&record(None, Some(true), Some(true), Some(1)), 0).is_none());
    assert!(pps_public_status(&record(Some("yesterday"), Some(true), Some(true), Some(1)), 0).is_none());
    // A current lease needs its deadline; a lapsed one does not.
    assert!(pps_status_from(&record(Some("t"), Some(true), Some(true), None), Some(100), 100).is_none());
    let st = pps_status_from(&record(Some("t"), Some(false), Some(false), None), Some(100), 100).unwrap();
    assert!(!st.invariant_ok && !st.chain_lease_current);
}

#[test]
fn wallet_health_needs_a_recent_responsive_snapshot() {
    assert!(wallet_health_from(true, Some(true), Some(3)));
    assert!(wallet_health_from(true, Some(true), Some(14)));
    assert!(!wallet_health_from(true, Some(true), Some(15)));
    assert!(!wallet_health_from(true, Some(false), Some(1)));
    assert!(!wallet_health_from(true, None, Some(1)));
    assert!(!wallet_health_from(true, Some(true), None));
    assert!(!wallet_health_from(false, Some(true), Some(1)));
    let now = chrono::Utc::now().to_rfc3339();
    let recent = PayoutHealthRecord { wallet_responsive: Some(true), checked_at: Some(now) };
    assert!(wallet_healthy(true, &Some(recent)));
    let old = PayoutHealthRecord {
        wallet_responsive: Some(true),
        checked_at: Some("2001-01-01T00:00:00Z".to_string()),
    };
    assert!(!wallet_healthy(true, &Some(old)));
    let garbled = PayoutHealthRecord { wallet_responsive: Some(true), checked_at: Some("now".into()) };
    assert!(!wallet_healthy(true, &Some(garbled)));
    assert!(!wallet_healthy(true, &None));
    assert!(!wallet_healthy(false, &None));
}

#[test]
fn health_endpoint_reports_stalls() {
    assert_eq!(health_report(true), (200, "ok", "ok"));
    assert_eq!(
        health_report(false),
        (503, "stalled", "node has not returned a block template recently; pool may be stalled")
    );
}

#[test]
fn payout_request_only_nudges_a_running_loop() {
    assert_eq!(payout_trigger(false, true, true), PayoutTrigger::NotConfigured);
    assert_eq!(payout_trigger(true, false, true), PayoutTrigger::NotConfigured);
    assert_eq!(payout_trigger(true, true, true), PayoutTrigger::NudgeLoop);
    assert_eq!(payout_trigger(true, true, false), PayoutTrigger::LoopNotRunning);
    assert_eq!(
        payout_trigger_message(PayoutTrigger::NotConfigured),
        "Payouts not configured on this dashboard"
    );
    assert_eq!(
        payout_trigger_message(PayoutTrigger::LoopNotRunning),
        "payout loop is not running (payouts disabled in config)"
    );
}

#[test]
fn hex_byte_order_is_swapped() {
    assert_eq!(reverse_hex("0102a0"), "a00201");
    assert_eq!(reverse_hex("ABcd"), "cdab");
    assert_eq!(reverse_hex("abc"), "");
    assert_eq!(reverse_hex("zz"), "");
    assert_eq!(reverse_hex(""), "");
}

#[test]
fn payout_miner_falls_back_to_its_id() {
    assert_eq!(payout_miner_label(Some("t1abc".to_string()), 5), "t1abc");
    assert_eq!(payout_miner_label(None, 42), "miner#42");
    assert_eq!(payout_miner_label(None, -1), "miner#-1");
}

#[test]
fn pps_balance_row() {
    let b = PpsMinerBalance::from_account(123, 4, 5, 6, 1_000_000_000_000);
    assert_eq!(b.pending_zatoshis, 123);
    assert_eq!(b.paying_zatoshis, 4);
    assert_eq!(b.paid_zatoshis, 5);
    assert_eq!(b.fractional_subzatoshis, "6");
    assert_eq!(b.subzatoshis_per_zatoshi, "1000000000000");
    assert_eq!(b, PpsMinerBalance::from_account(123, 4, 5, 6, 1_000_000_000_000));
}

#[test]
fn wallet_page_status() {
    let s = zallet_status(None);
    assert!(!s.rpc_ok && s.balance.is_none());
    assert_eq!(s.error.as_deref(), Some("Wallet RPC not configured (payout.wallet_rpc_url)"));
    let s = zallet_status(Some(Err("timeout".to_string())));
    assert_eq!(s.error.as_deref(), Some("RPC error: timeout"));
    assert!(!s.rpc_ok);
    let bal = ZalletBalance {
        transparent: "1.00000000".into(),
        private: "2.00000000".into(),
        total: "3.00000000".into(),
    };
    let s = zallet_status(Some(Ok(bal)));
    assert!(s.rpc_ok && s.error.is_none());
    assert_eq!(s.balance.unwrap().total, "3.00000000");
}

#[test]
fn immature_table_is_highest_first_with_confirmations() {
    let pending = vec![
        PendingBlock { height: 100, reward: 5, created_at: "a".into() },
        PendingBlock { height: 120, reward: 6, created_at: "b".into() },
        PendingBlock { height: 130, reward: 7, created_at: "c".into() },
        PendingBlock { height: 120, reward: 8, created_at: "d".into() },
    ];
    let rows = immature_rows(125, pending, 100);
    let view: Vec<(i64, i64, &str)> =
        rows.iter().map(|r| (r.height, r.confirmations, r.found_at.as_str())).collect();
    assert_eq!(view, vec![(130, 0, "c"), (120, 5, "b"), (120, 5, "d"), (100, 25, "a")]);
    assert!(rows.iter().all(|r| r.required == 100));
    assert_eq!(rows[3].reward_zatoshis, 5);
}

#[test]
fn history_keeps_the_latest_snapshots() {
    let mut h: StatsHistory<u64> = StatsHistory::new();
    assert_eq!(h.latest(), None);
    for i in 0..400u64 {
        h.push(i);
    }
    let all = h.get_all();
    assert_eq!(all.len(), STATS_HISTORY_CAPACITY);
    assert_eq!(all[0], 40);
    assert_eq!(*all.last().unwrap(), 399);
    assert_eq!(h.latest(), Some(399));
    let expected: Vec<u64> = (40..400).collect();
    assert_eq!(all, expected);
}

#[test]
fn last_block_time_is_read_as_utc() {
    assert_eq!(last_block_found_secs(Some("2024-01-01 00:00:00")), 1_704_067_200);
    assert_eq!(last_block_found_secs(Some("1970-01-01 00:01:40")), 100);
    assert_eq!(last_block_found_secs(Some("2024-01-01T00:00:00Z")), 0);
    assert_eq!(last_block_found_secs(Some("")), 0);
    assert_eq!(last_block_found_secs(None), 0);
}

#[test]
fn round_shares_count_from_the_last_block() {
    assert_eq!(round_shares_since(1_704_067_200).as_deref(), Some("2024-01-01 00:00:00"));
    assert_eq!(round_shares_since(100).as_deref(), Some("1970-01-01 00:01:40"));
    // A time chrono cannot write falls back to the epoch.
    assert_eq!(round_shares_since(i64::MAX).as_deref(), Some("1970-01-01 00:00:00"));
    assert_eq!(round_shares_since(0), None);
    assert_eq!(round_shares_since(-5), None);
}
