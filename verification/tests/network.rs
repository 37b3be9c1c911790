use pool_api::blocks::SHIELDED_MINER;
use pool_api::network::{
    cache_action, store_after_fetch, CacheAction,
    cache_is_fresh, cache_ttl_ms, coinbase_domain, coinbase_tag, default_range, identify_pool,
    is_zakura_block, is_zebrad_block, normalize_range, range_params, scan_heights,
    truncate_address, window_cutoff, NetworkQuery,
};
use pool_api::strmap::StrMap;

#[test]
fn luxor_coinbase_is_identified_as_luxor_not_f2pool() {
    let overrides: StrMap<String> = StrMap::new();
    // The lossy render of Luxor's shielded coinbase: height/extranonce
    // filler, then the stable self-tag.
    let luxor = "...B.....2/Mined by Luxor - Powered by LuxOS - tag from cfg/";
    assert_eq!(
        identify_pool(SHIELDED_MINER, luxor, &overrides).as_deref(),
        Some("Luxor")
    );
    // A generic "Mined by <user>" with no brand does not map to F2Pool.
    assert_eq!(
        identify_pool(SHIELDED_MINER, "...../Mined by someminer/", &overrides),
        None
    );
    // F2Pool only when its own brand is present.
    assert_eq!(
        identify_pool(SHIELDED_MINER, "...../Mined by F2Pool/", &overrides).as_deref(),
        Some("F2Pool")
    );
    // An operator label override still wins over everything.
    let mut ov: StrMap<String> = StrMap::new();
    ov.insert(SHIELDED_MINER.to_string(), "Named".to_string());
    assert_eq!(identify_pool(SHIELDED_MINER, luxor, &ov).as_deref(), Some("Named"));
}

#[test]
fn self_tagged_shielded_pools_are_named_from_their_coinbase() {
    let overrides: StrMap<String> = StrMap::new();
    // Sluicey, as rendered from its real mainnet shielded coinbase.
    let sluicey = "...5..Get Sluicey Yall sluicey.xyz";
    assert_eq!(
        identify_pool(SHIELDED_MINER, sluicey, &overrides).as_deref(),
        Some("Sluicey")
    );
    // An unlisted pool that signs with its domain is labeled by that domain.
    assert_eq!(
        identify_pool(SHIELDED_MINER, "..7...mined @ pool.example.com fast", &overrides).as_deref(),
        Some("pool.example.com")
    );
    // The `.` filler for non-printable bytes must not fabricate a domain,
    // and version-ish tokens are not domains either.
    assert_eq!(coinbase_domain("...5..ab.cd..x"), None);
    assert_eq!(coinbase_domain("v1.2.3 build"), None);
    assert_eq!(coinbase_domain("...../Mined by someminer/"), None);
    // Still nothing for a plain untagged shielded coinbase.
    assert_eq!(identify_pool(SHIELDED_MINER, "..<B.🌸", &overrides), None);
}

#[test]
fn coinbase_tag_extracts_the_stable_self_tag() {
    assert_eq!(
        coinbase_tag("...B.....2/Mined by Luxor - Powered by LuxOS - tag from cfg/").as_deref(),
        Some("Mined by Luxor - Powered by LuxOS - tag from cfg")
    );
    assert_eq!(coinbase_tag(".....//NiceHash//").as_deref(), Some("NiceHash"));
    // Only height/extranonce filler, no real tag.
    assert_eq!(coinbase_tag("...B....."), None);
}

#[test]
fn windows_and_their_parameters() {
    assert_eq!(default_range(), "1h");
    assert_eq!(NetworkQuery::with_default_range().range, "1h");
    assert_eq!(normalize_range("24h"), "24h");
    assert_eq!(normalize_range("1w"), "1w");
    assert_eq!(normalize_range("1h"), "1h");
    assert_eq!(normalize_range("7d"), "1h");
    assert_eq!(normalize_range(""), "1h");
    assert_eq!(range_params("1h"), (3600, 100));
    assert_eq!(range_params("24h"), (86400, 1500));
    assert_eq!(range_params("1w"), (604800, 3000));
    assert_eq!(range_params("junk"), (3600, 100));
    assert_eq!(cache_ttl_ms("1h"), 60_000);
    assert_eq!(cache_ttl_ms("24h"), 120_000);
    assert_eq!(cache_ttl_ms("1w"), 300_000);
    assert_eq!(cache_ttl_ms("x"), 60_000);
}

#[test]
fn scan_covers_the_window_with_a_fifth_more() {
    // 1h: 3600 s / 75 s * 1.2 = 57.6 -> 57 blocks below the tip.
    let hs = scan_heights("1h", 1000);
    assert_eq!(hs.len(), 58);
    assert_eq!(hs[0], 1000);
    assert_eq!(*hs.last().unwrap(), 943);
    // 24h: 1382 estimated, under the cap of 1500.
    let hs = scan_heights("24h", 10_000);
    assert_eq!(hs.len(), 1383);
    assert_eq!(*hs.last().unwrap(), 10_000 - 1382);
    // 1w: 9676 estimated, capped at 3000.
    let hs = scan_heights("1w", 100_000);
    assert_eq!(hs.len(), 3001);
    assert_eq!(*hs.last().unwrap(), 97_000);
}

#[test]
fn scan_never_goes_below_height_one() {
    let hs = scan_heights("1h", 10);
    assert_eq!(hs, vec![10, 9, 8, 7, 6, 5, 4, 3, 2, 1]);
    assert_eq!(scan_heights("1h", 1), vec![1]);
    assert!(scan_heights("1h", 0).is_empty());
}

#[test]
fn cutoff_and_cache_freshness() {
    assert_eq!(window_cutoff("1h", 1_000_000), 1_000_000 - 3600);
    assert_eq!(window_cutoff("1w", 1_000_000), 1_000_000 - 604_800);
    assert!(cache_is_fresh(100_000, 50_000, 60_000));
    assert!(!cache_is_fresh(110_000, 50_000, 60_000));
    assert!(!cache_is_fresh(200_000, 50_000, 60_000));
}

#[test]
fn long_addresses_are_shortened() {
    assert_eq!(
        truncate_address("t1abcdefghijklmnopqrstuvwxyz"),
        "t1abcdef...uvwxyz"
    );
    assert_eq!(truncate_address("t1short"), "t1short");
    assert_eq!(truncate_address("0123456789abcdef"), "0123456789abcdef");
    assert_eq!(truncate_address("0123456789abcdefg"), "01234567...bcdefg");
}

#[test]
fn node_markers_in_the_coinbase_hex() {
    assert!(is_zebrad_block("0304f09fa69300"));
    assert!(!is_zebrad_block("0304f09f8cb800"));
    assert!(is_zakura_block("0304f09f8cb800"));
    assert!(!is_zakura_block(""));
}

#[test]
fn known_addresses_and_overrides_name_pools() {
    let overrides: StrMap<String> = StrMap::new();
    assert_eq!(identify_pool("t1unknownaddress", "plain text", &overrides), None);
    let mut ov: StrMap<String> = StrMap::new();
    ov.insert("t1unknownaddress".to_string(), "Friends".to_string());
    assert_eq!(
        identify_pool("t1unknownaddress", "plain text", &ov).as_deref(),
        Some("Friends")
    );
    ov.insert("t1unknownaddress".to_string(), "Renamed".to_string());
    assert_eq!(ov.len(), 1);
    assert_eq!(
        identify_pool("t1unknownaddress", "", &ov).as_deref(),
        Some("Renamed")
    );
}

#[test]
fn short_self_tags_are_tags_too() {
    assert_eq!(coinbase_tag("..ab..").as_deref(), Some("ab"));
    assert_eq!(coinbase_tag("...ZP.."), Some("ZP".to_string()));
    assert_eq!(coinbase_tag("..a1.."), None);
    // The longest run with two letters wins, however short the others are.
    assert_eq!(coinbase_tag(".xy./abcd/.").as_deref(), Some("abcd"));
}

#[test]
fn cache_step_serves_fresh_entries_and_refetches_otherwise() {
    assert_eq!(cache_action(Some(50_000), 100_000, 60_000), CacheAction::Serve);
    assert_eq!(cache_action(Some(40_000), 100_000, 60_000), CacheAction::Fetch);
    assert_eq!(cache_action(None, 100_000, 60_000), CacheAction::Fetch);
    // A request stores what it answers; the warm-up keeps the old entry on failure.
    assert!(store_after_fetch(true, false));
    assert!(store_after_fetch(false, false));
    assert!(store_after_fetch(true, true));
    assert!(!store_after_fetch(false, true));
}

#[test]
fn domains_are_lowered_and_found_in_the_text() {
    let text = "..mined @ Pool.Example.COM fast";
    let d = coinbase_domain(text).unwrap();
    assert_eq!(d, "pool.example.com");
    assert!(text.to_ascii_lowercase().contains(&d));
    assert!(d.len() >= 6);
    assert_eq!(coinbase_domain("ab.cd"), None);
}
