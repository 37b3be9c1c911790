use pool_api::lwd_tip::AuthoritativeTip;

#[test]
fn empty_server_list_returns_empty_tip() {
    // With no servers configured the snapshot is empty (no calls, no errors).
    let snap = AuthoritativeTip::from_replies(vec![], 0, 1_700_000_000);
    assert!(snap.max_height.is_none());
    assert_eq!(snap.responses_ok, 0);
    assert_eq!(snap.responses_total, 0);
    assert_eq!(snap.per_server_height.len(), 0);
    assert_eq!(snap.per_server_error.len(), 0);
}

#[test]
fn bogus_host_lands_in_error_map_without_panic() {
    // A host that cannot be reached turns into a per-server error entry and
    // the aggregate reflects responses_ok = 0.
    let snap = AuthoritativeTip::from_replies(
        vec![(
            "this-host-does-not-exist.invalid".to_string(),
            Err("connect: dns error".to_string()),
        )],
        1,
        1_700_000_000,
    );
    assert_eq!(snap.responses_total, 1);
    assert_eq!(snap.responses_ok, 0);
    assert_eq!(snap.per_server_height.len(), 0);
    assert_eq!(snap.per_server_error.len(), 1);
}

#[test]
fn tip_is_the_highest_answer() {
    let snap = AuthoritativeTip::from_replies(
        vec![
            ("a.example".to_string(), Ok(100)),
            ("b.example".to_string(), Ok(140)),
            ("c.example".to_string(), Err("rpc timeout".to_string())),
            ("d.example".to_string(), Ok(120)),
        ],
        4,
        77,
    );
    assert_eq!(snap.max_height, Some(140));
    assert_eq!(snap.responses_ok, 3);
    assert_eq!(snap.responses_total, 4);
    assert_eq!(snap.fetched_at_unix, Some(77));
    assert_eq!(snap.per_server_height.get("b.example"), Some(&140));
    assert_eq!(snap.per_server_error.get("c.example").map(|s| s.as_str()), Some("rpc timeout"));
}

#[test]
fn a_later_answer_of_a_host_replaces_the_earlier() {
    let snap = AuthoritativeTip::from_replies(
        vec![("a.example".to_string(), Ok(500)), ("a.example".to_string(), Ok(90))],
        2,
        0,
    );
    assert_eq!(snap.max_height, Some(90));
    assert_eq!(snap.responses_ok, 1);
    let empty = AuthoritativeTip::empty();
    assert!(empty.max_height.is_none() && empty.fetched_at_unix.is_none());
}

#[test]
fn default_tip_is_empty() {
    let t = AuthoritativeTip::default();
    assert!(t.max_height.is_none());
    assert_eq!(t.responses_ok, 0);
    assert_eq!(t.per_server_height.len(), 0);
}
