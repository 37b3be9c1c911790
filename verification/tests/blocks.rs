use pool_api::blocks::{
    block_group_key, extract_coinbase, mining_distribution, network_mining_stats, network_totals,
    our_identity, select_blocks, shielded_coinbase_zat, summarize_block, BlockSummary,
    CoinbaseEntry, CoinbaseTx, FirstOutput, OurIdentity, RawBlock, RewardSource, SHIELDED_MINER,
};
use pool_api::network::is_zakura_block;
use pool_api::strmap::StrMap;

fn output(value_zat: i64, address: &str) -> FirstOutput {
    FirstOutput {
        value_zat: Some(value_zat),
        listed_address: Some(address.to_string()),
        address: None,
    }
}

fn tx(
    version: i64,
    coinbase_hex: &str,
    sapling: i64,
    orchard: i64,
    ironwood: Option<i64>,
    first: Option<FirstOutput>,
) -> CoinbaseTx {
    CoinbaseTx {
        version: Some(version),
        coinbase_hex: Some(coinbase_hex.to_string()),
        sapling_value_balance: Some(sapling),
        orchard_value_balance: Some(orchard),
        ironwood_value_balance: ironwood,
        first_output: first,
    }
}

#[test]
fn transparent_coinbase_reads_vout0() {
    let entry = CoinbaseEntry::Full(tx(
        5,
        "03bced4104f09f8cb87a6b636f646578636f646572",
        0,
        0,
        None,
        Some(output(125_000_000, "tmFU5Ak942B7SciQpZCh3xH76QV3UmJgnDd")),
    ));
    let info = extract_coinbase(&entry);
    assert_eq!(info.miner_address, "tmFU5Ak942B7SciQpZCh3xH76QV3UmJgnDd");
    assert_eq!(info.reward, RewardSource::Zatoshis(125_000_000));
    assert!(info.coinbase_text.contains("zkcodexcoder"));
    assert_eq!(info.tx_version, 5);
}

#[test]
fn shielded_coinbase_reports_note_value_not_funding_stream() {
    // The only vout is the funding stream; the miner's 1.25 + fees sits in
    // the ironwood bundle.
    let entry = CoinbaseEntry::Full(tx(
        6,
        "03bced4104f09f8cb87a6b636f646578636f646572",
        0,
        0,
        Some(-125_050_000),
        Some(output(12_500_000, "t2HifwjUj9uyxr9bknR8LFuQbc98c3vkXtu")),
    ));
    let info = extract_coinbase(&entry);
    assert_eq!(info.miner_address, SHIELDED_MINER);
    assert_eq!(info.reward, RewardSource::Zatoshis(125_050_000));
    assert!(is_zakura_block(&info.coinbase_hex));
    assert_eq!(info.tx_version, 6);
}

#[test]
fn orchard_and_sapling_balances_also_count() {
    let entry = CoinbaseEntry::Full(tx(5, "00", -100, -200, None, None));
    let info = extract_coinbase(&entry);
    assert_eq!(info.miner_address, SHIELDED_MINER);
    assert_eq!(info.reward, RewardSource::Zatoshis(300));
}

#[test]
fn missing_or_short_coinbase_entries_are_unknown() {
    for entry in [CoinbaseEntry::Missing, CoinbaseEntry::TxId] {
        let info = extract_coinbase(&entry);
        assert_eq!(info.miner_address, "unknown");
        assert_eq!(info.reward, RewardSource::Nothing);
        assert_eq!(info.coinbase_text, "");
        assert_eq!(info.coinbase_hex, "");
        assert_eq!(info.tx_version, 0);
    }
    // A full transaction without outputs keeps its text and version.
    let info = extract_coinbase(&CoinbaseEntry::Full(tx(4, "4142", 0, 0, None, None)));
    assert_eq!(info.miner_address, "unknown");
    assert_eq!(info.reward, RewardSource::Nothing);
    assert_eq!(info.coinbase_text, "AB");
    assert_eq!(info.tx_version, 4);
}

#[test]
fn first_output_without_value_zat_uses_its_value_field() {
    let first = FirstOutput {
        value_zat: None,
        listed_address: None,
        address: Some("t1fromaddressfield".to_string()),
    };
    let info = extract_coinbase(&CoinbaseEntry::Full(tx(5, "", 0, 0, None, Some(first))));
    assert_eq!(info.miner_address, "t1fromaddressfield");
    assert_eq!(info.reward, RewardSource::ValueField);
}

#[test]
fn shielded_value_is_the_negated_balance_sum() {
    assert_eq!(shielded_coinbase_zat(&tx(5, "", -1, -2, Some(-3), None)), 6);
    assert_eq!(shielded_coinbase_zat(&tx(5, "", 0, 0, None, None)), 0);
    assert_eq!(shielded_coinbase_zat(&tx(5, "", 10, -3, None, None)), -7);
}

#[test]
fn shielded_miners_group_by_coinbase_tag_not_the_shared_placeholder() {
    let blk = |tag: &str, name: Option<&str>| BlockSummary {
        height: 1,
        hash: "h".into(),
        time: 1,
        miner_address: SHIELDED_MINER.to_string(),
        miner_label: String::new(),
        pool_name: name.map(str::to_string),
        reward: RewardSource::Zatoshis(125_000_000),
        is_our_pool: false,
        coinbase_text: tag.to_string(),
        coinbase_hex: String::new(),
        coinbase_tx_version: 6,
        is_zebrad: false,
        is_zakura: false,
    };
    // Two distinct shielded pools must not share a group key.
    let luxor = blk("../Mined by Luxor - Powered by LuxOS/", Some("Luxor"));
    let other = blk("../Mined by someminer/", None);
    assert_ne!(block_group_key(&luxor), block_group_key(&other));
    assert_eq!(block_group_key(&luxor), "Luxor");
    assert_eq!(block_group_key(&other), "Mined by someminer");
}

fn raw(height: u64, time: i64, address: &str, coinbase_hex: &str) -> RawBlock {
    RawBlock {
        height,
        time,
        hash: format!("hash{height}"),
        coinbase: CoinbaseEntry::Full(tx(
            5,
            coinbase_hex,
            0,
            0,
            None,
            Some(output(125_000_000, address)),
        )),
    }
}

fn ours() -> OurIdentity {
    our_identity(&Some("t1ourpooladdress0000".to_string()), &Some("ourtag".to_string()))
}

#[test]
fn our_identity_spells_the_tag_in_hex() {
    let id = ours();
    assert_eq!(id.mining_address, "t1ourpooladdress0000");
    assert_eq!(id.tag_hex.as_deref(), Some("6f7572746167"));
    let none = our_identity(&None, &Some(String::new()));
    assert_eq!(none.mining_address, "");
    assert!(none.tag_hex.is_none());
}

#[test]
fn our_blocks_are_recognised_by_address_or_tag() {
    let overrides: StrMap<String> = StrMap::new();
    let by_address = summarize_block(raw(7, 100, "t1ourpooladdress0000", "00"), &ours(), &overrides);
    assert!(by_address.is_our_pool);
    assert_eq!(by_address.pool_name.as_deref(), Some("Our Pool"));
    assert_eq!(by_address.miner_label, "Our Pool");
    // A shielded coinbase carrying our tag is filed under our address.
    let shielded = RawBlock {
        height: 8,
        time: 100,
        hash: "h8".to_string(),
        coinbase: CoinbaseEntry::Full(tx(6, "006f757274616700", 0, 0, Some(-5), None)),
    };
    let s = summarize_block(shielded, &ours(), &overrides);
    assert!(s.is_our_pool);
    assert_eq!(s.miner_address, "t1ourpooladdress0000");
    assert_eq!(s.reward, RewardSource::Zatoshis(5));
    // A stranger's block is labelled by its shortened address.
    let other = summarize_block(raw(9, 100, "t1someoneelse0123456789", "00"), &ours(), &overrides);
    assert!(!other.is_our_pool);
    assert_eq!(other.pool_name, None);
    assert_eq!(other.miner_label, "t1someon...456789");
    assert_eq!(other.height, 9);
    assert_eq!(other.hash, "hash9");
}

#[test]
fn window_keeps_recent_blocks_newest_first() {
    let overrides: StrMap<String> = StrMap::new();
    let blocks = vec![
        raw(10, 500, "t1aaaaaaaaaaaaaaaaaaaa", "00"),
        raw(12, 700, "t1bbbbbbbbbbbbbbbbbbbb", "00"),
        raw(11, 100, "t1cccccccccccccccccccc", "00"),
        raw(13, 900, "t1aaaaaaaaaaaaaaaaaaaa", "00"),
    ];
    let kept = select_blocks(blocks, 400, &ours(), &overrides);
    let heights: Vec<u64> = kept.iter().map(|b| b.height).collect();
    assert_eq!(heights, vec![13, 12, 10]);
}

#[test]
fn distribution_counts_each_identity_most_blocks_first() {
    let overrides: StrMap<String> = StrMap::new();
    let blocks = vec![
        raw(1, 10, "t1aaaaaaaaaaaaaaaaaaaa", "f09fa693"),
        raw(2, 10, "t1bbbbbbbbbbbbbbbbbbbb", "00"),
        raw(3, 10, "t1aaaaaaaaaaaaaaaaaaaa", "f09f8cb8"),
        raw(4, 10, "t1ourpooladdress0000", "00"),
        raw(5, 10, "t1aaaaaaaaaaaaaaaaaaaa", "00"),
    ];
    let st = network_mining_stats(blocks, 0, &ours(), &overrides);
    assert_eq!(st.total_blocks, 5);
    assert_eq!(st.our_pool_blocks, 1);
    assert_eq!(st.zebrad_blocks, 1);
    assert_eq!(st.zakura_blocks, 1);
    assert_eq!(st.unique_miners, 3);
    let first = &st.distribution[0];
    assert_eq!(first.key, "t1aaaaaaaaaaaaaaaaaaaa");
    assert_eq!(first.block_count, 3);
    assert_eq!(first.zebrad_count, 1);
    assert_eq!(first.zakura_count, 1);
    assert_eq!(first.label, "t1aaaaaa...aaaaaa");
    assert_eq!(first.dominant_tx_version, 5);
    assert!(!first.is_our_pool);
    let counts: Vec<u64> = st.distribution.iter().map(|g| g.block_count).collect();
    assert_eq!(counts, vec![3, 1, 1]);
    let our_row = st.distribution.iter().find(|g| g.is_our_pool).unwrap();
    assert_eq!(our_row.pool_name.as_deref(), Some("Our Pool"));
    assert_eq!(our_row.label, "Our Pool");
    let totals = network_totals(&st.blocks);
    assert_eq!(totals, (1, 1, 1));
    let again = mining_distribution(&st.blocks);
    assert_eq!(again.len(), 3);
}

#[test]
fn shielded_miner_with_a_short_tag_keeps_its_own_group() {
    let b = BlockSummary {
        height: 1,
        hash: "h".into(),
        time: 1,
        miner_address: SHIELDED_MINER.to_string(),
        miner_label: String::new(),
        pool_name: None,
        reward: RewardSource::Zatoshis(1),
        is_our_pool: false,
        coinbase_text: "...B..XYZ..".to_string(),
        coinbase_hex: String::new(),
        coinbase_tx_version: 6,
        is_zebrad: false,
        is_zakura: false,
    };
    assert_eq!(block_group_key(&b), "XYZ");
}
