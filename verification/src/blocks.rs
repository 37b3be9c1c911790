//! From fetched blocks to the network page: what each block's coinbase says,
//! whether the block is ours, which pool mined it, and the per-miner
//! distribution of the window.

use vstd::prelude::*;
use vstd::string::StringSliceAdditionalSpecFns;
use vstd::utf8::*;

use crate::codec::{hex_bytes_or_empty, hex_encode, hex_text, hex_to_ascii_lossy, render_lossy};
use crate::network::{
    coinbase_tag, identify_pool, is_zakura_block, is_zebrad_block, spec_coinbase_tag,
    spec_identify_pool, spec_truncate_address, truncatable, truncate_address,
};
use crate::sorting::{lemma_sort_desc, lemma_sort_desc_map, sort_desc, sort_desc_vec, sorted_desc, SortKey};
use crate::strmap::StrMap;
use crate::text::{chars_of, contains_seq, copy_range, has_substring, is_lit, opt_view, seq_equal, views};

verus! {

broadcast use vstd::seq_lib::to_multiset_insert, vstd::seq_lib::to_multiset_remove;

/// Placeholder miner address of a coinbase whose reward was minted straight
/// into a shielded note: the recipient is not visible on chain.
pub const SHIELDED_MINER: &'static str = "shielded";

/// The first transparent output of a coinbase transaction, as far as the page
/// reads it.
pub struct FirstOutput {
    /// `valueZat`, when it is an integer.
    pub value_zat: Option<i64>,
    /// The first entry of `scriptPubKey.addresses`, when it is text.
    pub listed_address: Option<String>,
    /// `scriptPubKey.address`, when it is text.
    pub address: Option<String>,
}

/// The fields of a coinbase transaction that the page reads.
pub struct CoinbaseTx {
    /// `version`, when it is an integer.
    pub version: Option<i64>,
    /// `vin[0].coinbase`, when it is text.
    pub coinbase_hex: Option<String>,
    /// The Sapling `valueBalanceZat`.
    pub sapling_value_balance: Option<i64>,
    /// `orchard.valueBalanceZat`.
    pub orchard_value_balance: Option<i64>,
    /// `ironwood.valueBalanceZat`.
    pub ironwood_value_balance: Option<i64>,
    /// `vout[0]`, when `vout` is a non-empty array.
    pub first_output: Option<FirstOutput>,
}

/// A block's first transaction, as the node returned it.
pub enum CoinbaseEntry {
    /// No transaction list, or an empty one.
    Missing,
    /// Only the transaction id (the block was fetched at low verbosity).
    TxId,
    /// The whole transaction.
    Full(CoinbaseTx),
}

/// Where a block's reward figure comes from.
#[derive(Clone, Copy, PartialEq, Eq, Debug)]
pub enum RewardSource {
    /// A value in zatoshis.
    Zatoshis(i64),
    /// The decimal `value` field of the first output (read as ZEC).
    ValueField,
    /// No reward is known (shown as zero).
    Nothing,
}

/// What a block's coinbase tells.
pub struct CoinbaseInfo {
    pub miner_address: String,
    pub reward: RewardSource,
    pub coinbase_text: String,
    pub coinbase_hex: String,
    pub tx_version: i32,
}

/// An optional integer, zero when absent.
pub open spec fn unwrap_i64(o: Option<i64>) -> int {
    match o {
        Some(v) => v as int,
        None => 0,
    }
}

/// The value balances whose negated sum is what the coinbase mints into
/// the shielded pools.
pub open spec fn balance_sum(tx: CoinbaseTx) -> int {
    unwrap_i64(tx.sapling_value_balance) + unwrap_i64(tx.orchard_value_balance) + unwrap_i64(
        tx.ironwood_value_balance,
    )
}

/// The sums that `shielded_coinbase_zat` forms stay within `i64`.
pub open spec fn balances_in_range(tx: CoinbaseTx) -> bool {
    let partial = unwrap_i64(tx.sapling_value_balance) + unwrap_i64(tx.orchard_value_balance);
    &&& i64::MIN <= partial <= i64::MAX
    &&& i64::MIN < balance_sum(tx) <= i64::MAX
}

/// Value (zatoshis) a coinbase mints into the shielded pools: the negated sum
/// of its Sapling, Orchard and Ironwood value balances (a missing one counts
/// as zero). Zero for a transparent coinbase.
pub fn shielded_coinbase_zat(tx: &CoinbaseTx) -> (r: i64)
    requires
        balances_in_range(*tx),
    ensures
        r == -balance_sum(*tx),
{
    let sapling: i64 = match tx.sapling_value_balance {
        Some(v) => v,
        None => 0,
    };
    let orchard: i64 = match tx.orchard_value_balance {
        Some(v) => v,
        None => 0,
    };
    let ironwood: i64 = match tx.ironwood_value_balance {
        Some(v) => v,
        None => 0,
    };
    let s = sapling + orchard;
    let t = s + ironwood;
    -t
}

/// The address an output names: the first listed one, else its `address`,
/// else `unknown`.
pub open spec fn output_address(o: FirstOutput) -> Seq<char> {
    match o.listed_address {
        Some(a) => a@,
        None => match o.address {
            Some(a) => a@,
            None => "unknown"@,
        },
    }
}

/// The coinbase scriptSig hex of a transaction, empty when absent.
pub open spec fn hex_of(tx: CoinbaseTx) -> Seq<char> {
    match tx.coinbase_hex {
        Some(h) => h@,
        None => Seq::<char>::empty(),
    }
}

/// What the page shows of a coinbase: (miner address, reward source, text,
/// hex, transaction version). A coinbase that mints into a shielded note has
/// the placeholder miner and the shielded value as its reward; otherwise the
/// first output names the miner and the reward.
pub open spec fn spec_coinbase_info(e: CoinbaseEntry) -> (Seq<char>, RewardSource, Seq<char>, Seq<char>, i32) {
    match e {
        CoinbaseEntry::Full(tx) => {
            let hex = hex_of(tx);
            let text = render_lossy(hex_bytes_or_empty(encode_utf8(hex)));
            let ver = unwrap_i64(tx.version) as i32;
            let shielded = -balance_sum(tx);
            if shielded > 0 {
                ("shielded"@, RewardSource::Zatoshis(shielded as i64), text, hex, ver)
            } else {
                match tx.first_output {
                    None => ("unknown"@, RewardSource::Nothing, text, hex, ver),
                    Some(o) => (
                        output_address(o),
                        match o.value_zat {
                            Some(z) => RewardSource::Zatoshis(z),
                            None => RewardSource::ValueField,
                        },
                        text,
                        hex,
                        ver,
                    ),
                }
            }
        },
        _ => ("unknown"@, RewardSource::Nothing, Seq::<char>::empty(), Seq::<char>::empty(), 0i32),
    }
}

/// A coinbase's value balances sum within `i64`.
pub open spec fn entry_in_range(e: CoinbaseEntry) -> bool {
    match e {
        CoinbaseEntry::Full(tx) => balances_in_range(tx),
        _ => true,
    }
}

fn cast_version(v: i64) -> (r: i32)
    ensures
        r == v as i32,
{
    #[verifier::truncate]
    (v as i32)
}

/// Reads a block's coinbase: miner address, reward, text, hex and version.
pub fn extract_coinbase(entry: &CoinbaseEntry) -> (info: CoinbaseInfo)
    requires
        entry_in_range(*entry),
    ensures
        (info.miner_address@, info.reward, info.coinbase_text@, info.coinbase_hex@, info.tx_version)
            == spec_coinbase_info(*entry),
{
    match entry {
        CoinbaseEntry::Full(tx) => {
            let version: i64 = match tx.version {
                Some(v) => v,
                None => 0,
            };
            let tx_version = cast_version(version);
            let coinbase_hex: String = match &tx.coinbase_hex {
                Some(h) => h.clone(),
                None => String::new(),
            };
            let coinbase_text = hex_to_ascii_lossy(coinbase_hex.as_str());
            let shielded = shielded_coinbase_zat(tx);
            if shielded > 0 {
                return CoinbaseInfo {
                    miner_address: SHIELDED_MINER.to_owned(),
                    reward: RewardSource::Zatoshis(shielded),
                    coinbase_text,
                    coinbase_hex,
                    tx_version,
                };
            }
            match &tx.first_output {
                None => CoinbaseInfo {
                    miner_address: "unknown".to_owned(),
                    reward: RewardSource::Nothing,
                    coinbase_text,
                    coinbase_hex,
                    tx_version,
                },
                Some(o) => {
                    let reward = match o.value_zat {
                        Some(z) => RewardSource::Zatoshis(z),
                        None => RewardSource::ValueField,
                    };
                    let miner_address = match &o.listed_address {
                        Some(a) => a.clone(),
                        None => match &o.address {
                            Some(a) => a.clone(),
                            None => "unknown".to_owned(),
                        },
                    };
                    CoinbaseInfo { miner_address, reward, coinbase_text, coinbase_hex, tx_version }
                },
            }
        },
        _ => CoinbaseInfo {
            miner_address: "unknown".to_owned(),
            reward: RewardSource::Nothing,
            coinbase_text: String::new(),
            coinbase_hex: String::new(),
            tx_version: 0,
        },
    }
}

// ---------------------------------------------------------------------------
// Classifying blocks
// ---------------------------------------------------------------------------

/// How the pool recognises its own blocks: by the transparent address it
/// mines to, and by its coinbase tag spelled as scriptSig hex.
pub struct OurIdentity {
    pub mining_address: String,
    pub tag_hex: Option<String>,
}

/// The pool's identity from its configuration: the mining address (empty when
/// none is set) and, for a non-empty coinbase tag, the tag's bytes in hex.
pub fn our_identity(mining_address: &Option<String>, coinbase_tag_text: &Option<String>) -> (id:
    OurIdentity)
    ensures
        id.mining_address@ == match mining_address {
            Some(a) => a@,
            None => Seq::<char>::empty(),
        },
        opt_view(id.tag_hex) == match coinbase_tag_text {
            Some(t) => if t@.len() > 0 {
                Some(hex_text(encode_utf8(t@)))
            } else {
                None
            },
            None => None,
        },
{
    let mining = match mining_address {
        Some(a) => a.clone(),
        None => String::new(),
    };
    let tag_hex = match coinbase_tag_text {
        Some(t) => if t.as_str().unicode_len() > 0 {
            Some(hex_encode(t.as_str().as_bytes()))
        } else {
            None
        },
        None => None,
    };
    OurIdentity { mining_address: mining, tag_hex }
}

/// A block as fetched: height, time, hash and its coinbase transaction.
pub struct RawBlock {
    pub height: u64,
    pub time: i64,
    pub hash: String,
    pub coinbase: CoinbaseEntry,
}

/// A block as the network page lists it.
pub struct BlockSummary {
    pub height: u64,
    pub hash: String,
    pub time: i64,
    pub miner_address: String,
    pub miner_label: String,
    pub pool_name: Option<String>,
    pub reward: RewardSource,
    pub is_our_pool: bool,
    pub coinbase_text: String,
    pub coinbase_hex: String,
    pub coinbase_tx_version: i32,
    pub is_zebrad: bool,
    pub is_zakura: bool,
}

/// What a block's coinbase tells.
pub open spec fn info_of(raw: RawBlock) -> (Seq<char>, RewardSource, Seq<char>, Seq<char>, i32) {
    spec_coinbase_info(raw.coinbase)
}

/// The block pays our mining address, or its coinbase carries our tag.
pub open spec fn spec_is_ours(raw: RawBlock, ours: OurIdentity) -> bool {
    let info = info_of(raw);
    ||| (ours.mining_address@.len() > 0 && info.0 == ours.mining_address@)
    ||| (ours.tag_hex matches Some(t) && contains_seq(info.3, t@))
}

/// The address a block is filed under: ours for a shielded coinbase that is
/// ours (when a mining address is set), else what the coinbase names.
pub open spec fn spec_block_address(raw: RawBlock, ours: OurIdentity) -> Seq<char> {
    let info = info_of(raw);
    if spec_is_ours(raw, ours) && info.0 == "shielded"@ && ours.mining_address@.len() > 0 {
        ours.mining_address@
    } else {
        info.0
    }
}

/// The pool a block is shown under: ours, else the identified one.
pub open spec fn spec_block_pool(raw: RawBlock, ours: OurIdentity, overrides: Map<Seq<char>, String>) -> Option<Seq<char>> {
    if spec_is_ours(raw, ours) {
        Some("Our Pool"@)
    } else {
        spec_identify_pool(spec_block_address(raw, ours), info_of(raw).2, overrides)
    }
}

/// The block can be read and listed: its coinbase's balances sum within
/// `i64`, and shortening an address that names no pool cuts no character
/// apart.
pub open spec fn summarizable(raw: RawBlock, ours: OurIdentity, overrides: Map<Seq<char>, String>) -> bool {
    &&& entry_in_range(raw.coinbase)
    &&& (spec_block_pool(raw, ours, overrides) is None ==> truncatable(spec_block_address(raw, ours)))
}

/// What the page shows of a block, field by field.
pub open spec fn summary_matches(
    s: BlockSummary,
    raw: RawBlock,
    ours: OurIdentity,
    overrides: Map<Seq<char>, String>,
) -> bool {
    let info = info_of(raw);
    let pool = spec_block_pool(raw, ours, overrides);
    &&& s.height == raw.height
    &&& s.time == raw.time
    &&& s.hash@ == raw.hash@
    &&& s.miner_address@ == spec_block_address(raw, ours)
    &&& opt_view(s.pool_name) == pool
    &&& s.miner_label@ == match pool {
        Some(p) => p,
        None => spec_truncate_address(spec_block_address(raw, ours)),
    }
    &&& s.reward == info.1
    &&& s.is_our_pool == spec_is_ours(raw, ours)
    &&& s.coinbase_text@ == info.2
    &&& s.coinbase_hex@ == info.3
    &&& s.coinbase_tx_version == info.4
    &&& s.is_zebrad == contains_seq(info.3, "f09fa693"@)
    &&& s.is_zakura == contains_seq(info.3, "f09f8cb8"@)
}

/// What the classification of a block settles before it is labelled.
struct Classified {
    info: CoinbaseInfo,
    address: String,
    is_ours: bool,
    pool_name: Option<String>,
}

fn classify(raw: &RawBlock, ours: &OurIdentity, overrides: &StrMap<String>) -> (c: Classified)
    requires
        entry_in_range(raw.coinbase),
    ensures
        (c.info.miner_address@, c.info.reward, c.info.coinbase_text@, c.info.coinbase_hex@, c.info.tx_version)
            == info_of(*raw),
        c.address@ == spec_block_address(*raw, *ours),
        c.is_ours == spec_is_ours(*raw, *ours),
        opt_view(c.pool_name) == spec_block_pool(*raw, *ours, overrides@),
{
    let info = extract_coinbase(&raw.coinbase);
    let mut address = info.miner_address.clone();
    let addr_chars = chars_of(address.as_str());
    let mine = chars_of(ours.mining_address.as_str());
    let pays_our_address = mine.len() > 0 && seq_equal(&addr_chars, &mine);
    let carries_our_tag = match &ours.tag_hex {
        Some(tag) => {
            let hex_chars = chars_of(info.coinbase_hex.as_str());
            let tag_chars = chars_of(tag.as_str());
            has_substring(&hex_chars, &tag_chars)
        },
        None => false,
    };
    let is_ours = pays_our_address || carries_our_tag;
    if is_ours && is_lit(&addr_chars, "shielded") && mine.len() > 0 {
        address = ours.mining_address.clone();
    }
    let pool_name = if is_ours {
        Some("Our Pool".to_owned())
    } else {
        identify_pool(address.as_str(), info.coinbase_text.as_str(), overrides)
    };
    Classified { info, address, is_ours, pool_name }
}

/// Whether the balances of a coinbase can be summed within `i64`.
fn entry_balances_fit(e: &CoinbaseEntry) -> (r: bool)
    ensures
        r == entry_in_range(*e),
{
    match e {
        CoinbaseEntry::Full(tx) => {
            let sapling: i64 = match tx.sapling_value_balance {
                Some(v) => v,
                None => 0,
            };
            let orchard: i64 = match tx.orchard_value_balance {
                Some(v) => v,
                None => 0,
            };
            let ironwood: i64 = match tx.ironwood_value_balance {
                Some(v) => v,
                None => 0,
            };
            match sapling.checked_add(orchard) {
                Some(partial) => match partial.checked_add(ironwood) {
                    Some(total) => total != i64::MIN,
                    None => false,
                },
                None => false,
            }
        },
        _ => true,
    }
}

/// Whether an address can be shortened without cutting a character apart.
fn address_truncatable(addr: &str) -> (r: bool)
    ensures
        r == truncatable(addr@),
{
    let n = addr.as_bytes().len();
    proof {
        assert(addr.spec_bytes() == encode_utf8(addr@));
    }
    n <= 16 || (addr.is_char_boundary(8) && addr.is_char_boundary(n - 6))
}

/// Whether a fetched block can be classified and labelled: its coinbase's
/// balances sum within `i64`, and an address that names no pool can be
/// shortened. On other blocks, reading or labelling panics.
pub fn block_summarizable(raw: &RawBlock, ours: &OurIdentity, overrides: &StrMap<String>) -> (r:
    bool)
    requires
    ensures
        r == summarizable(*raw, *ours, overrides@),
{
    if !entry_balances_fit(&raw.coinbase) {
        return false;
    }
    let c = classify(raw, ours, overrides);
    match c.pool_name {
        Some(_) => true,
        None => address_truncatable(c.address.as_str()),
    }
}

/// Classifies one fetched block: reads its coinbase, tells whether it is
/// ours, names its pool and labels it.
pub fn summarize_block(raw: RawBlock, ours: &OurIdentity, overrides: &StrMap<String>) -> (s:
    BlockSummary)
    requires
        summarizable(raw, *ours, overrides@),
    ensures
        summary_matches(s, raw, *ours, overrides@),
        s.pool_name is None ==> truncatable(s.miner_address@),
{
    let c = classify(&raw, ours, overrides);
    let miner_label = match &c.pool_name {
        Some(p) => p.clone(),
        None => truncate_address(c.address.as_str()),
    };
    let is_zebrad = is_zebrad_block(c.info.coinbase_hex.as_str());
    let is_zakura = is_zakura_block(c.info.coinbase_hex.as_str());
    BlockSummary {
        height: raw.height,
        hash: raw.hash,
        time: raw.time,
        miner_address: c.address,
        miner_label,
        pool_name: c.pool_name,
        reward: c.info.reward,
        is_our_pool: c.is_ours,
        coinbase_text: c.info.coinbase_text,
        coinbase_hex: c.info.coinbase_hex,
        coinbase_tx_version: c.info.tx_version,
        is_zebrad,
        is_zakura,
    }
}

impl SortKey for RawBlock {
    open spec fn sort_key(&self) -> int {
        self.height as int
    }

    fn key(&self) -> (k: i128) {
        self.height as i128
    }
}

/// The blocks of `s`, in order, whose time is not before `cutoff`.
pub open spec fn in_window(s: Seq<RawBlock>, cutoff: i64) -> Seq<RawBlock>
    decreases s.len(),
{
    if s.len() == 0 {
        s
    } else {
        let w = in_window(s.drop_last(), cutoff);
        if s.last().time >= cutoff {
            w.push(s.last())
        } else {
            w
        }
    }
}

proof fn lemma_in_window(s: Seq<RawBlock>, cutoff: i64)
    ensures
        forall|i: int|
            0 <= i < in_window(s, cutoff).len() ==> (#[trigger] in_window(s, cutoff)[i]).time >= cutoff
                && s.contains(in_window(s, cutoff)[i]),
        sorted_desc(s) ==> sorted_desc(in_window(s, cutoff)),
    decreases s.len(),
{
    if s.len() > 0 {
        let init = s.drop_last();
        let x = s.last();
        lemma_in_window(init, cutoff);
        let w0 = in_window(init, cutoff);
        let w = in_window(s, cutoff);
        assert forall|i: int| 0 <= i < w.len() implies (#[trigger] w[i]).time >= cutoff && s.contains(
            w[i],
        ) by {
            if i < w0.len() {
                assert(w[i] == w0[i]);
                let j = choose|j: int| 0 <= j < init.len() && init[j] == w0[i];
                assert(s[j] == init[j]);
            } else {
                assert(w[i] == x);
                assert(s[s.len() - 1] == x);
            }
        }
        if sorted_desc(s) {
            assert(sorted_desc(init)) by {
                assert forall|i: int, j: int| 0 <= i < j < init.len() implies init[i].sort_key()
                    >= init[j].sort_key() by {
                    assert(init[i] == s[i] && init[j] == s[j]);
                }
            }
            if x.time >= cutoff {
                assert forall|i: int, j: int| 0 <= i < j < w.len() implies w[i].sort_key()
                    >= w[j].sort_key() by {
                    assert(w[i] == w0[i]);
                    if j < w0.len() {
                        assert(w[j] == w0[j]);
                    } else {
                        let k = choose|k: int| 0 <= k < init.len() && init[k] == w0[i];
                        assert(s[k] == init[k]);
                        assert(s[s.len() - 1] == x);
                    }
                }
            }
        }
    }
}

/// The network page lists only blocks of the window, each one fetched, and
/// newest first.
pub proof fn law_window_newest_first(raw: Seq<RawBlock>, cutoff: i64)
    ensures
        forall|i: int|
            0 <= i < in_window(sort_desc(raw), cutoff).len() ==> (#[trigger] in_window(
                sort_desc(raw),
                cutoff,
            )[i]).time >= cutoff && raw.contains(in_window(sort_desc(raw), cutoff)[i]),
        forall|i: int, j: int|
            0 <= i < j < in_window(sort_desc(raw), cutoff).len() ==> in_window(sort_desc(raw), cutoff)[i].height
                >= in_window(sort_desc(raw), cutoff)[j].height,
{
    lemma_sort_desc(raw);
    lemma_in_window(sort_desc(raw), cutoff);
    let w = in_window(sort_desc(raw), cutoff);
    assert forall|i: int| 0 <= i < w.len() implies raw.contains(#[trigger] w[i]) by {
        vstd::seq_lib::to_multiset_contains(sort_desc(raw), w[i]);
        vstd::seq_lib::to_multiset_contains(raw, w[i]);
    }
    assert forall|i: int, j: int| 0 <= i < j < w.len() implies w[i].height >= w[j].height by {
        assert(w[i].sort_key() >= w[j].sort_key());
    }
}

/// Orders the fetched blocks newest first, drops those older than `cutoff_time`
/// and classifies the rest.
pub fn select_blocks(
    raw: Vec<RawBlock>,
    cutoff_time: i64,
    ours: &OurIdentity,
    overrides: &StrMap<String>,
) -> (blocks: Vec<BlockSummary>)
    requires
        forall|i: int|
            0 <= i < raw@.len() && (#[trigger] raw@[i]).time >= cutoff_time ==> summarizable(
                raw@[i],
                *ours,
                overrides@,
            ),
    ensures
        ({
            let kept = in_window(sort_desc(raw@), cutoff_time);
            &&& blocks@.len() == kept.len()
            &&& forall|i: int|
                0 <= i < kept.len() ==> summary_matches(
                    #[trigger] blocks@[i],
                    kept[i],
                    *ours,
                    overrides@,
                )
        }),
        forall|i: int|
            0 <= i < blocks@.len() ==> (#[trigger] blocks@[i]).pool_name is None ==> truncatable(
                blocks@[i].miner_address@,
            ),
{
    let ghost orig = raw@;
    proof {
        lemma_sort_desc(orig);
    }
    let mut sorted = sort_desc_vec(raw);
    let ghost all = sorted@;
    let total = sorted.len();
    let mut done: usize = 0;
    let mut out: Vec<BlockSummary> = Vec::new();
    assert(all.take(0) =~= Seq::<RawBlock>::empty());
    assert(all.skip(0) =~= all);
    while sorted.len() > 0
        invariant
                all == sort_desc(orig),
            all.to_multiset() == orig.to_multiset(),
            forall|i: int|
                0 <= i < orig.len() && (#[trigger] orig[i]).time >= cutoff_time ==> summarizable(
                    orig[i],
                    *ours,
                    overrides@,
                ),
            total == all.len(),
            done <= total,
            sorted@ == all.skip(done as int),
            out@.len() == in_window(all.take(done as int), cutoff_time).len(),
            forall|i: int|
                0 <= i < out@.len() ==> summary_matches(
                    #[trigger] out@[i],
                    in_window(all.take(done as int), cutoff_time)[i],
                    *ours,
                    overrides@,
                ),
            forall|i: int|
                0 <= i < out@.len() ==> (#[trigger] out@[i]).pool_name is None ==> truncatable(
                    out@[i].miner_address@,
                ),
        decreases sorted.len(),
    {
        let b = sorted.remove(0);
        let ghost bg = b;
        assert(bg == all[done as int]);
        assert(sorted@ =~= all.skip(done + 1));
        let ghost pre = all.take(done as int);
        assert(all.take(done + 1).drop_last() =~= pre);
        assert(all.take(done + 1).last() == bg);
        if b.time >= cutoff_time {
            proof {
                assert(all.contains(bg));
                vstd::seq_lib::to_multiset_contains(all, bg);
                vstd::seq_lib::to_multiset_contains(orig, bg);
                assert(orig.contains(bg));
                let j = choose|j: int| 0 <= j < orig.len() && orig[j] == bg;
                assert(summarizable(orig[j], *ours, overrides@));
            }
            let s = summarize_block(b, ours, overrides);
            out.push(s);
            assert(in_window(all.take(done + 1), cutoff_time) == in_window(pre, cutoff_time).push(bg));
            assert forall|i: int| 0 <= i < out@.len() implies summary_matches(
                #[trigger] out@[i],
                in_window(all.take(done + 1), cutoff_time)[i],
                *ours,
                overrides@,
            ) by {
                if i < out@.len() - 1 {
                    assert(in_window(all.take(done + 1), cutoff_time)[i] == in_window(pre, cutoff_time)[i]);
                }
            }
        } else {
            assert(in_window(all.take(done + 1), cutoff_time) == in_window(pre, cutoff_time));
        }
        done = done + 1;
    }
    assert(all.take(done as int) =~= all);
    out
}

// ---------------------------------------------------------------------------
// Grouping blocks by miner
// ---------------------------------------------------------------------------

/// The identity a block is grouped under: its pool's name; for an
/// unidentified shielded miner, its coinbase tag (else the placeholder);
/// else its address.
pub open spec fn spec_group_key(pool: Option<Seq<char>>, addr: Seq<char>, text: Seq<char>) -> Seq<char> {
    match pool {
        Some(n) => n,
        None => if addr == "shielded"@ {
            match spec_coinbase_tag(text) {
                Some(t) => t,
                None => "shielded"@,
            }
        } else {
            addr
        },
    }
}

/// The identity a listed block is grouped under.
pub open spec fn block_key(b: BlockSummary) -> Seq<char> {
    spec_group_key(opt_view(b.pool_name), b.miner_address@, b.coinbase_text@)
}

/// A block that a pool claims groups under the pool's name; a transparent
/// miner that no pool claims groups under its own address, so that all of
/// its blocks make one row whatever their coinbase texts say.
pub proof fn law_group_key_by_identity(b: BlockSummary, c: BlockSummary)
    ensures
        b.pool_name matches Some(p) ==> block_key(b) == p@,
        b.pool_name is None && b.miner_address@ != "shielded"@ ==> block_key(b)
            == b.miner_address@,
        b.pool_name is None && c.pool_name is None && b.miner_address@ != "shielded"@
            && c.miner_address@ == b.miner_address@ ==> block_key(b) == block_key(c),
{
}

/// The identity a block is grouped under on the network page: a known pool
/// groups under its name, an unidentified shielded miner under its coinbase
/// tag, and only a plain transparent miner under its address.
pub fn block_group_key(b: &BlockSummary) -> (k: String)
    ensures
        k@ == block_key(*b),
{
    if let Some(name) = &b.pool_name {
        return name.clone();
    }
    let addr = chars_of(b.miner_address.as_str());
    if is_lit(&addr, "shielded") {
        match coinbase_tag(b.coinbase_text.as_str()) {
            Some(t) => t,
            None => SHIELDED_MINER.to_owned(),
        }
    } else {
        b.miner_address.clone()
    }
}

/// What a count over blocks counts.
#[derive(Clone, Copy, PartialEq, Eq, Debug)]
pub enum Tally {
    Every,
    Zebrad,
    Zakura,
    Ours,
    Version(i32),
}

/// Whether a block counts toward `t`.
pub open spec fn tallies(t: Tally, b: BlockSummary) -> bool {
    match t {
        Tally::Every => true,
        Tally::Zebrad => b.is_zebrad,
        Tally::Zakura => b.is_zakura,
        Tally::Ours => b.is_our_pool,
        Tally::Version(v) => b.coinbase_tx_version == v,
    }
}

fn tally_hits(t: Tally, b: &BlockSummary) -> (r: bool)
    ensures
        r == tallies(t, *b),
{
    match t {
        Tally::Every => true,
        Tally::Zebrad => b.is_zebrad,
        Tally::Zakura => b.is_zakura,
        Tally::Ours => b.is_our_pool,
        Tally::Version(v) => b.coinbase_tx_version == v,
    }
}

/// How many blocks of `bs` meet `t`.
pub open spec fn count_blocks(bs: Seq<BlockSummary>, t: Tally) -> nat
    decreases bs.len(),
{
    if bs.len() == 0 {
        0
    } else {
        count_blocks(bs.drop_last(), t) + if tallies(t, bs.last()) {
            1nat
        } else {
            0nat
        }
    }
}

/// Blocks marked zebrad.
pub open spec fn marked_zebrad() -> spec_fn(BlockSummary) -> bool {
    |b: BlockSummary| b.is_zebrad
}

/// Blocks marked Zakura.
pub open spec fn marked_zakura() -> spec_fn(BlockSummary) -> bool {
    |b: BlockSummary| b.is_zakura
}

/// Blocks of our pool.
pub open spec fn marked_ours() -> spec_fn(BlockSummary) -> bool {
    |b: BlockSummary| b.is_our_pool
}

/// Blocks of group `k`, and of those the ones that `flag` holds of.
pub open spec fn in_group_and(k: Seq<char>, flag: spec_fn(BlockSummary) -> bool) -> spec_fn(
    BlockSummary,
) -> bool {
    |b: BlockSummary| block_key(b) == k && flag(b)
}

/// Raw blocks whose coinbase hex holds `marker`.
pub open spec fn hex_holds(marker: Seq<char>) -> spec_fn(RawBlock) -> bool {
    |r: RawBlock| contains_seq(info_of(r).3, marker)
}

/// The totals count flags, not one another: the zebrad total is the number
/// of blocks marked zebrad, the Zakura total the number marked Zakura, ours
/// the number of our pool's; within a group the row's counts are the same
/// numbers over the group's blocks alone.
pub proof fn law_totals_count_flags(bs: Seq<BlockSummary>, k: Seq<char>)
    ensures
        count_blocks(bs, Tally::Every) == bs.len(),
        count_blocks(bs, Tally::Zebrad) == bs.filter(marked_zebrad()).len(),
        count_blocks(bs, Tally::Zakura) == bs.filter(marked_zakura()).len(),
        count_blocks(bs, Tally::Ours) == bs.filter(marked_ours()).len(),
        count_in_group(bs, k, Tally::Every) == bs.filter(
            in_group_and(k, |b: BlockSummary| true),
        ).len(),
        count_in_group(bs, k, Tally::Zebrad) == bs.filter(in_group_and(k, marked_zebrad())).len(),
        count_in_group(bs, k, Tally::Zakura) == bs.filter(in_group_and(k, marked_zakura())).len(),
    decreases bs.len(),
{
    reveal(Seq::filter);
    if bs.len() > 0 {
        law_totals_count_flags(bs.drop_last(), k);
    }
}

/// Read back to the blocks they were made from, the window's totals count
/// coinbase markers: the zebrad total is the number of kept blocks whose
/// coinbase hex holds `f09fa693`, the Zakura total the number whose hex holds
/// `f09f8cb8`.
pub proof fn law_totals_read_the_markers(
    bs: Seq<BlockSummary>,
    kept: Seq<RawBlock>,
    ours: OurIdentity,
    overrides: Map<Seq<char>, String>,
)
    requires
        bs.len() == kept.len(),
        forall|i: int| 0 <= i < bs.len() ==> summary_matches(#[trigger] bs[i], kept[i], ours, overrides),
    ensures
        count_blocks(bs, Tally::Zebrad) == kept.filter(hex_holds("f09fa693"@)).len(),
        count_blocks(bs, Tally::Zakura) == kept.filter(hex_holds("f09f8cb8"@)).len(),
    decreases bs.len(),
{
    reveal(Seq::filter);
    if bs.len() > 0 {
        let n = bs.len() - 1;
        assert(summary_matches(bs[n as int], kept[n as int], ours, overrides));
        assert forall|i: int| 0 <= i < bs.drop_last().len() implies summary_matches(
            #[trigger] bs.drop_last()[i],
            kept.drop_last()[i],
            ours,
            overrides,
        ) by {
            assert(summary_matches(bs[i], kept[i], ours, overrides));
        }
        law_totals_read_the_markers(bs.drop_last(), kept.drop_last(), ours, overrides);
    }
}

/// How many blocks of group `k` meet `t`.
pub open spec fn count_in_group(bs: Seq<BlockSummary>, k: Seq<char>, t: Tally) -> nat
    decreases bs.len(),
{
    if bs.len() == 0 {
        0
    } else {
        count_in_group(bs.drop_last(), k, t) + if block_key(bs.last()) == k && tallies(
            t,
            bs.last(),
        ) {
            1nat
        } else {
            0nat
        }
    }
}

/// The group identities in the order they first occur.
pub open spec fn group_keys(bs: Seq<BlockSummary>) -> Seq<Seq<char>>
    decreases bs.len(),
{
    if bs.len() == 0 {
        Seq::<Seq<char>>::empty()
    } else {
        let ks = group_keys(bs.drop_last());
        if ks.contains(block_key(bs.last())) {
            ks
        } else {
            ks.push(block_key(bs.last()))
        }
    }
}

/// The index of the first block of group `k`.
pub open spec fn first_in_group(bs: Seq<BlockSummary>, k: Seq<char>) -> int
    decreases bs.len(),
{
    if bs.len() == 0 {
        0
    } else if group_keys(bs.drop_last()).contains(k) {
        first_in_group(bs.drop_last(), k)
    } else {
        bs.len() - 1
    }
}

/// The group identities are those of the blocks, each once.
pub proof fn lemma_group_keys(bs: Seq<BlockSummary>)
    ensures
        forall|k: Seq<char>|
            #[trigger] group_keys(bs).contains(k) <==> exists|i: int|
                0 <= i < bs.len() && block_key(bs[i]) == k,
        forall|i: int, j: int|
            0 <= i < j < group_keys(bs).len() ==> group_keys(bs)[i] != group_keys(bs)[j],
    decreases bs.len(),
{
    if bs.len() > 0 {
        let init = bs.drop_last();
        lemma_group_keys(init);
        let ks = group_keys(init);
        let last = block_key(bs.last());
        let all = group_keys(bs);
        assert(bs[bs.len() - 1] == bs.last());
        assert forall|k: Seq<char>| #[trigger]
            all.contains(k) implies exists|i: int| 0 <= i < bs.len() && block_key(bs[i]) == k by {
            if ks.contains(k) {
                let i = choose|i: int| 0 <= i < init.len() && block_key(init[i]) == k;
                assert(bs[i] == init[i]);
            } else {
                let idx = choose|idx: int| 0 <= idx < all.len() && all[idx] == k;
                if idx < ks.len() {
                    assert(ks[idx] == k);
                }
                assert(k == last);
            }
        }
        assert forall|k: Seq<char>|
            (exists|i: int| 0 <= i < bs.len() && block_key(bs[i]) == k) implies #[trigger] all.contains(k) by {
            let i = choose|i: int| 0 <= i < bs.len() && block_key(bs[i]) == k;
            if i < bs.len() - 1 {
                assert(init[i] == bs[i]);
                assert(ks.contains(k));
                if !ks.contains(last) {
                    let idx = choose|idx: int| 0 <= idx < ks.len() && ks[idx] == k;
                    assert(all[idx] == k);
                }
            } else {
                if ks.contains(k) {
                } else {
                    assert(all[all.len() - 1] == k);
                }
            }
        }
    }
}

proof fn lemma_first_in_group(bs: Seq<BlockSummary>, k: Seq<char>, j: int)
    requires
        0 <= j < bs.len(),
        block_key(bs[j]) == k,
        forall|i: int| 0 <= i < j ==> block_key(#[trigger] bs[i]) != k,
    ensures
        first_in_group(bs, k) == j,
    decreases bs.len(),
{
    let init = bs.drop_last();
    lemma_group_keys(init);
    if j < bs.len() - 1 {
        assert(init[j] == bs[j]);
        assert(group_keys(init).contains(k));
        assert forall|i: int| 0 <= i < j implies block_key(#[trigger] init[i]) != k by {
            assert(init[i] == bs[i]);
        }
        lemma_first_in_group(init, k, j);
    } else {
        if group_keys(init).contains(k) {
            let i = choose|i: int| 0 <= i < init.len() && block_key(init[i]) == k;
            assert(init[i] == bs[i]);
        }
    }
}

proof fn lemma_count_positive(bs: Seq<BlockSummary>, k: Seq<char>, t: Tally)
    requires
        count_in_group(bs, k, t) > 0,
    ensures
        exists|i: int| 0 <= i < bs.len() && block_key(bs[i]) == k && tallies(t, #[trigger] bs[i]),
    decreases bs.len(),
{
    let init = bs.drop_last();
    if count_in_group(init, k, t) > 0 {
        lemma_count_positive(init, k, t);
        let i = choose|i: int| 0 <= i < init.len() && block_key(init[i]) == k && tallies(t, #[trigger] init[i]);
        assert(bs[i] == init[i]);
    } else {
        assert(tallies(t, bs[bs.len() - 1]));
    }
}

/// The block counts of the identities `ks`, summed.
pub open spec fn counts_sum(bs: Seq<BlockSummary>, ks: Seq<Seq<char>>) -> nat
    decreases ks.len(),
{
    if ks.len() == 0 {
        0
    } else {
        counts_sum(bs, ks.drop_last()) + count_in_group(bs, ks.last(), Tally::Every)
    }
}

/// How often `k` occurs in `ks`.
pub open spec fn occurrences(ks: Seq<Seq<char>>, k: Seq<char>) -> nat
    decreases ks.len(),
{
    if ks.len() == 0 {
        0
    } else {
        occurrences(ks.drop_last(), k) + if ks.last() == k {
            1nat
        } else {
            0nat
        }
    }
}

proof fn lemma_counts_sum_step(bs: Seq<BlockSummary>, ks: Seq<Seq<char>>)
    requires
        bs.len() > 0,
    ensures
        counts_sum(bs, ks) == counts_sum(bs.drop_last(), ks) + occurrences(ks, block_key(bs.last())),
    decreases ks.len(),
{
    if ks.len() > 0 {
        lemma_counts_sum_step(bs, ks.drop_last());
    }
}

proof fn lemma_occurrences_distinct(ks: Seq<Seq<char>>, k: Seq<char>)
    requires
        forall|i: int, j: int| 0 <= i < j < ks.len() ==> ks[i] != ks[j],
    ensures
        occurrences(ks, k) == if ks.contains(k) {
            1nat
        } else {
            0nat
        },
    decreases ks.len(),
{
    if ks.len() > 0 {
        let init = ks.drop_last();
        assert forall|i: int, j: int| 0 <= i < j < init.len() implies init[i] != init[j] by {
            assert(init[i] == ks[i] && init[j] == ks[j]);
        }
        lemma_occurrences_distinct(init, k);
        if ks.last() == k {
            assert(ks[ks.len() - 1] == k);
            if init.contains(k) {
                let i = choose|i: int| 0 <= i < init.len() && init[i] == k;
                assert(ks[i] == init[i]);
            }
        } else {
            if ks.contains(k) {
                let i = choose|i: int| 0 <= i < ks.len() && ks[i] == k;
                assert(init[i] == ks[i]);
            }
            if init.contains(k) {
                let i = choose|i: int| 0 <= i < init.len() && init[i] == k;
                assert(ks[i] == init[i]);
            }
        }
    }
}

proof fn lemma_count_absent(bs: Seq<BlockSummary>, k: Seq<char>, t: Tally)
    requires
        !group_keys(bs).contains(k),
    ensures
        count_in_group(bs, k, t) == 0,
{
    lemma_group_keys(bs);
    if count_in_group(bs, k, t) > 0 {
        lemma_count_positive(bs, k, t);
        let i = choose|i: int| 0 <= i < bs.len() && block_key(bs[i]) == k && tallies(t, #[trigger] bs[i]);
        assert(group_keys(bs).contains(k));
    }
}

/// Every block of the window is counted in exactly one row of the
/// distribution: the rows' block counts add up to the number of blocks.
pub proof fn law_rows_count_every_block(bs: Seq<BlockSummary>)
    ensures
        counts_sum(bs, group_keys(bs)) == bs.len(),
    decreases bs.len(),
{
    if bs.len() > 0 {
        let init = bs.drop_last();
        let kx = block_key(bs.last());
        let ks0 = group_keys(init);
        law_rows_count_every_block(init);
        lemma_group_keys(init);
        lemma_group_keys(bs);
        lemma_counts_sum_step(bs, group_keys(bs));
        lemma_occurrences_distinct(group_keys(bs), kx);
        if ks0.contains(kx) {
            assert(group_keys(bs) == ks0);
            assert(group_keys(bs).contains(kx));
        } else {
            let ks = ks0.push(kx);
            assert(group_keys(bs) == ks);
            assert(ks[ks.len() - 1] == kx);
            assert(ks.drop_last() =~= ks0);
            lemma_counts_sum_step(bs, ks0);
            lemma_occurrences_distinct(ks0, kx);
            lemma_count_absent(init, kx, Tally::Every);
            assert(counts_sum(init, ks) == counts_sum(init, ks0) + count_in_group(init, kx, Tally::Every));
        }
    }
}

/// One miner's row in the distribution.
pub struct MinerGroup {
    pub key: String,
    pub label: String,
    pub address: String,
    pub pool_name: Option<String>,
    pub block_count: u64,
    pub is_our_pool: bool,
    pub zebrad_count: u64,
    pub zakura_count: u64,
    pub dominant_tx_version: i32,
}

impl SortKey for MinerGroup {
    open spec fn sort_key(&self) -> int {
        self.block_count as int
    }

    fn key(&self) -> (k: i128) {
        self.block_count as i128
    }
}

/// A row states group `k` of `bs`: its counts, whether any of its blocks is
/// ours, the address and pool of its first block, its label, and a
/// transaction version that no other version of the group outnumbers.
pub open spec fn group_matches(g: MinerGroup, bs: Seq<BlockSummary>, k: Seq<char>) -> bool {
    let first = bs[first_in_group(bs, k)];
    &&& g.key@ == k
    &&& g.block_count == count_in_group(bs, k, Tally::Every)
    &&& g.zebrad_count == count_in_group(bs, k, Tally::Zebrad)
    &&& g.zakura_count == count_in_group(bs, k, Tally::Zakura)
    &&& g.is_our_pool == (count_in_group(bs, k, Tally::Ours) > 0)
    &&& g.address@ == first.miner_address@
    &&& opt_view(g.pool_name) == if g.is_our_pool {
        Some("Our Pool"@)
    } else {
        opt_view(first.pool_name)
    }
    &&& g.label@ == match opt_view(g.pool_name) {
        Some(p) => p,
        None => if g.address@ == "shielded"@ {
            k
        } else {
            spec_truncate_address(g.address@)
        },
    }
    &&& count_in_group(bs, k, Tally::Version(g.dominant_tx_version)) > 0
    &&& forall|v: i32|
        #[trigger] count_in_group(bs, k, Tally::Version(v)) <= count_in_group(
            bs,
            k,
            Tally::Version(g.dominant_tx_version),
        )
}

/// The identities of the rows, in order.
pub open spec fn group_key_seq(gs: Seq<MinerGroup>) -> Seq<Seq<char>> {
    gs.map_values(|g: MinerGroup| g.key@)
}

/// Every block without a pool name can have its address shortened.
pub open spec fn labels_truncatable(bs: Seq<BlockSummary>) -> bool {
    forall|i: int|
        0 <= i < bs.len() ==> (#[trigger] bs[i]).pool_name is None ==> truncatable(bs[i].miner_address@)
}

fn count_group(bs: &Vec<BlockSummary>, keys: &Vec<Vec<char>>, k: &Vec<char>, t: Tally) -> (n: u64)
    requires
        keys@.len() == bs@.len(),
        forall|i: int| 0 <= i < bs@.len() ==> (#[trigger] keys@[i])@ == block_key(bs@[i]),
    ensures
        n == count_in_group(bs@, k@, t),
{
    let mut n: u64 = 0;
    let mut i: usize = 0;
    while i < bs.len()
        invariant
            i <= bs.len(),
            keys@.len() == bs@.len(),
            forall|q: int| 0 <= q < bs@.len() ==> (#[trigger] keys@[q])@ == block_key(bs@[q]),
            n == count_in_group(bs@.take(i as int), k@, t),
            n <= i,
        decreases bs.len() - i,
    {
        assert(bs@.take(i + 1).drop_last() =~= bs@.take(i as int));
        assert(bs@.take(i + 1).last() == bs@[i as int]);
        if seq_equal(&keys[i], k) && tally_hits(t, &bs[i]) {
            n = n + 1;
        }
        i = i + 1;
    }
    assert(bs@.take(bs.len() as int) =~= bs@);
    n
}

fn clone_name(o: &Option<String>) -> (r: Option<String>)
    ensures
        opt_view(r) == opt_view(*o),
{
    match o {
        Some(s) => Some(s.clone()),
        None => None,
    }
}

/// Builds the row of group `k`.
fn build_group(bs: &Vec<BlockSummary>, keys: &Vec<Vec<char>>, k: &Vec<char>) -> (g: MinerGroup)
    requires
        keys@.len() == bs@.len(),
        forall|i: int| 0 <= i < bs@.len() ==> (#[trigger] keys@[i])@ == block_key(bs@[i]),
        exists|i: int| 0 <= i < bs@.len() && block_key(bs@[i]) == k@,
        labels_truncatable(bs@),
    ensures
        group_matches(g, bs@, k@),
{
    let block_count = count_group(bs, keys, k, Tally::Every);
    let zebrad_count = count_group(bs, keys, k, Tally::Zebrad);
    let zakura_count = count_group(bs, keys, k, Tally::Zakura);
    let is_our_pool = count_group(bs, keys, k, Tally::Ours) > 0;
    // the first block of the group
    let mut j: usize = 0;
    while !seq_equal(&keys[j], k)
        invariant
            j < bs.len(),
            keys@.len() == bs@.len(),
            forall|i: int| 0 <= i < bs@.len() ==> (#[trigger] keys@[i])@ == block_key(bs@[i]),
            exists|i: int| j <= i < bs@.len() && block_key(bs@[i]) == k@,
            forall|i: int| 0 <= i < j ==> block_key(#[trigger] bs@[i]) != k@,
        decreases bs.len() - j,
    {
        j = j + 1;
    }
    proof {
        lemma_first_in_group(bs@, k@, j as int);
    }
    let first = &bs[j];
    let address = first.miner_address.clone();
    let pool_name = if is_our_pool {
        Some("Our Pool".to_owned())
    } else {
        clone_name(&first.pool_name)
    };
    let addr_chars = chars_of(address.as_str());
    let label = match &pool_name {
        Some(p) => p.clone(),
        None => if is_lit(&addr_chars, "shielded") {
            string_of_chars(k)
        } else {
            assert(first.pool_name is None);
            truncate_address(address.as_str())
        },
    };
    // the version that no other version of the group outnumbers
    let mut best_version: i32 = bs[j].coinbase_tx_version;
    let mut best_count: u64 = count_group(bs, keys, k, Tally::Version(best_version));
    proof {
        lemma_count_includes(bs@, k@, Tally::Version(best_version), j as int);
    }
    let mut q: usize = j;
    while q < bs.len()
        invariant
            j <= q <= bs.len(),
            keys@.len() == bs@.len(),
            forall|i: int| 0 <= i < bs@.len() ==> (#[trigger] keys@[i])@ == block_key(bs@[i]),
            forall|i: int| 0 <= i < j ==> block_key(#[trigger] bs@[i]) != k@,
            best_count == count_in_group(bs@, k@, Tally::Version(best_version)),
            best_count > 0,
            forall|i: int|
                0 <= i < q && block_key(bs@[i]) == k@ ==> count_in_group(
                    bs@,
                    k@,
                    Tally::Version((#[trigger] bs@[i]).coinbase_tx_version),
                ) <= best_count,
        decreases bs.len() - q,
    {
        if seq_equal(&keys[q], k) {
            let v = bs[q].coinbase_tx_version;
            let c = count_group(bs, keys, k, Tally::Version(v));
            if c > best_count {
                best_version = v;
                best_count = c;
            }
        }
        q = q + 1;
    }
    proof {
        assert forall|v: i32|
            #[trigger] count_in_group(bs@, k@, Tally::Version(v)) <= count_in_group(
                bs@,
                k@,
                Tally::Version(best_version),
            ) by {
            if count_in_group(bs@, k@, Tally::Version(v)) > 0 {
                lemma_count_positive(bs@, k@, Tally::Version(v));
                let i = choose|i: int|
                    0 <= i < bs@.len() && block_key(bs@[i]) == k@ && tallies(
                        Tally::Version(v),
                        #[trigger] bs@[i],
                    );
                assert(bs@[i].coinbase_tx_version == v);
            }
        }
    }
    MinerGroup {
        key: string_of_chars(k),
        label,
        address,
        pool_name,
        block_count,
        is_our_pool,
        zebrad_count,
        zakura_count,
        dominant_tx_version: best_version,
    }
}

proof fn lemma_count_includes(bs: Seq<BlockSummary>, k: Seq<char>, t: Tally, j: int)
    requires
        0 <= j < bs.len(),
        block_key(bs[j]) == k,
        tallies(t, bs[j]),
    ensures
        count_in_group(bs, k, t) > 0,
    decreases bs.len(),
{
    if j < bs.len() - 1 {
        let init = bs.drop_last();
        assert(init[j] == bs[j]);
        lemma_count_includes(init, k, t, j);
    }
}

fn string_of_chars(k: &Vec<char>) -> (s: String)
    ensures
        s@ == k@,
{
    crate::text::string_of(k)
}

/// The distribution of the window's blocks over miners: one row per group
/// identity, most blocks first.
pub fn mining_distribution(blocks: &Vec<BlockSummary>) -> (groups: Vec<MinerGroup>)
    requires
        labels_truncatable(blocks@),
    ensures
        groups@.len() == group_keys(blocks@).len(),
        group_key_seq(groups@).to_multiset() == group_keys(blocks@).to_multiset(),
        sorted_desc(groups@),
        forall|j: int|
            0 <= j < groups@.len() ==> group_matches(#[trigger] groups@[j], blocks@, groups@[j].key@),
{
    // the identity of every block
    let mut keys: Vec<Vec<char>> = Vec::new();
    let mut i: usize = 0;
    while i < blocks.len()
        invariant
            i <= blocks.len(),
            keys@.len() == i,
            forall|q: int| 0 <= q < i ==> (#[trigger] keys@[q])@ == block_key(blocks@[q]),
        decreases blocks.len() - i,
    {
        let k = block_group_key(&blocks[i]);
        keys.push(chars_of(k.as_str()));
        i = i + 1;
    }
    // the identities in the order they first occur
    let mut distinct: Vec<Vec<char>> = Vec::new();
    let mut i: usize = 0;
    assert(blocks@.take(0) =~= Seq::<BlockSummary>::empty());
    while i < blocks.len()
        invariant
            i <= blocks.len(),
            keys@.len() == blocks@.len(),
            forall|q: int| 0 <= q < blocks@.len() ==> (#[trigger] keys@[q])@ == block_key(blocks@[q]),
            views(distinct@) == group_keys(blocks@.take(i as int)),
        decreases blocks.len() - i,
    {
        let ghost pre = blocks@.take(i as int);
        assert(blocks@.take(i + 1).drop_last() =~= pre);
        assert(blocks@.take(i + 1).last() == blocks@[i as int]);
        let mut found = false;
        let mut d: usize = 0;
        while d < distinct.len()
            invariant
                d <= distinct.len(),
                i < keys@.len(),
                found <==> exists|e: int| 0 <= e < d && distinct@[e]@ == keys@[i as int]@,
            decreases distinct.len() - d,
        {
            if seq_equal(&distinct[d], &keys[i]) {
                found = true;
            }
            d = d + 1;
        }
        proof {
            let ks = group_keys(pre);
            if found {
                let e = choose|e: int| 0 <= e < d && distinct@[e]@ == keys@[i as int]@;
                assert(views(distinct@)[e] == ks[e]);
                assert(ks.contains(block_key(blocks@[i as int])));
            } else {
                if ks.contains(block_key(blocks@[i as int])) {
                    let e = choose|e: int| 0 <= e < ks.len() && ks[e] == block_key(blocks@[i as int]);
                    assert(views(distinct@)[e] == distinct@[e]@);
                }
            }
        }
        if !found {
            let copy = copy_range(&keys[i], 0, keys[i].len());
            assert(copy@ =~= keys@[i as int]@);
            distinct.push(copy);
            assert(views(distinct@) =~= group_keys(pre).push(block_key(blocks@[i as int])));
        }
        i = i + 1;
    }
    assert(blocks@.take(blocks.len() as int) =~= blocks@);
    proof {
        lemma_group_keys(blocks@);
    }
    // one row per identity
    let mut rows: Vec<MinerGroup> = Vec::new();
    let mut g: usize = 0;
    while g < distinct.len()
        invariant
            g <= distinct.len(),
            keys@.len() == blocks@.len(),
            forall|q: int| 0 <= q < blocks@.len() ==> (#[trigger] keys@[q])@ == block_key(blocks@[q]),
            views(distinct@) == group_keys(blocks@),
            labels_truncatable(blocks@),
            forall|k: Seq<char>|
                #[trigger] group_keys(blocks@).contains(k) <==> exists|i: int|
                    0 <= i < blocks@.len() && block_key(blocks@[i]) == k,
            rows@.len() == g,
            forall|q: int| 0 <= q < g ==> (#[trigger] rows@[q]).key@ == group_keys(blocks@)[q],
            forall|q: int|
                0 <= q < g ==> group_matches(#[trigger] rows@[q], blocks@, rows@[q].key@),
        decreases distinct.len() - g,
    {
        assert(views(distinct@)[g as int] == distinct@[g as int]@);
        assert(group_keys(blocks@).contains(distinct@[g as int]@));
        let row = build_group(blocks, &keys, &distinct[g]);
        rows.push(row);
        g = g + 1;
    }
    assert(group_key_seq(rows@) =~= group_keys(blocks@));
    let ghost unsorted = rows@;
    proof {
        lemma_sort_desc(unsorted);
        lemma_sort_desc_map(unsorted, |r: MinerGroup| r.key@);
    }
    let sorted = sort_desc_vec(rows);
    proof {
        assert(group_key_seq(sorted@) == sort_desc(unsorted).map_values(|r: MinerGroup| r.key@));
        assert forall|j: int| 0 <= j < sorted@.len() implies group_matches(
            #[trigger] sorted@[j],
            blocks@,
            sorted@[j].key@,
        ) by {
            let x = sorted@[j];
            assert(sorted@.contains(x));
            vstd::seq_lib::to_multiset_contains(sorted@, x);
            vstd::seq_lib::to_multiset_contains(unsorted, x);
            assert(unsorted.contains(x));
        }
    }
    sorted
}

/// (blocks that are ours, zebrad blocks, Zakura blocks) in the window.
pub fn network_totals(blocks: &Vec<BlockSummary>) -> (r: (u64, u64, u64))
    ensures
        r.0 == count_blocks(blocks@, Tally::Ours),
        r.1 == count_blocks(blocks@, Tally::Zebrad),
        r.2 == count_blocks(blocks@, Tally::Zakura),
{
    let mut ours: u64 = 0;
    let mut zebrad: u64 = 0;
    let mut zakura: u64 = 0;
    let mut i: usize = 0;
    while i < blocks.len()
        invariant
            i <= blocks.len(),
            ours == count_blocks(blocks@.take(i as int), Tally::Ours),
            zebrad == count_blocks(blocks@.take(i as int), Tally::Zebrad),
            zakura == count_blocks(blocks@.take(i as int), Tally::Zakura),
            ours <= i && zebrad <= i && zakura <= i,
        decreases blocks.len() - i,
    {
        assert(blocks@.take(i + 1).drop_last() =~= blocks@.take(i as int));
        assert(blocks@.take(i + 1).last() == blocks@[i as int]);
        if blocks[i].is_our_pool {
            ours = ours + 1;
        }
        if blocks[i].is_zebrad {
            zebrad = zebrad + 1;
        }
        if blocks[i].is_zakura {
            zakura = zakura + 1;
        }
        i = i + 1;
    }
    assert(blocks@.take(blocks.len() as int) =~= blocks@);
    (ours, zebrad, zakura)
}

/// The network page's figures for a window.
pub struct NetworkMiningCore {
    /// The window's blocks, newest first.
    pub blocks: Vec<BlockSummary>,
    /// One row per miner identity, most blocks first.
    pub distribution: Vec<MinerGroup>,
    pub total_blocks: u64,
    pub our_pool_blocks: u64,
    pub unique_miners: u64,
    pub zebrad_blocks: u64,
    pub zakura_blocks: u64,
}

/// From the fetched blocks to the network page's figures: the blocks of the
/// window newest first, classified; their distribution over miners; and
/// the totals.
pub fn network_mining_stats(
    raw: Vec<RawBlock>,
    cutoff_time: i64,
    ours: &OurIdentity,
    overrides: &StrMap<String>,
) -> (st: NetworkMiningCore)
    requires
        forall|i: int|
            0 <= i < raw@.len() && (#[trigger] raw@[i]).time >= cutoff_time ==> summarizable(
                raw@[i],
                *ours,
                overrides@,
            ),
    ensures
        ({
            let kept = in_window(sort_desc(raw@), cutoff_time);
            &&& st.blocks@.len() == kept.len()
            &&& forall|i: int|
                0 <= i < kept.len() ==> summary_matches(
                    #[trigger] st.blocks@[i],
                    kept[i],
                    *ours,
                    overrides@,
                )
        }),
        st.distribution@.len() == group_keys(st.blocks@).len(),
        group_key_seq(st.distribution@).to_multiset() == group_keys(st.blocks@).to_multiset(),
        sorted_desc(st.distribution@),
        forall|j: int|
            0 <= j < st.distribution@.len() ==> group_matches(
                #[trigger] st.distribution@[j],
                st.blocks@,
                st.distribution@[j].key@,
            ),
        st.total_blocks == st.blocks@.len(),
        st.unique_miners == st.distribution@.len(),
        st.our_pool_blocks == count_blocks(st.blocks@, Tally::Ours),
        st.zebrad_blocks == count_blocks(st.blocks@, Tally::Zebrad),
        st.zakura_blocks == count_blocks(st.blocks@, Tally::Zakura),
{
    let blocks = select_blocks(raw, cutoff_time, ours, overrides);
    let distribution = mining_distribution(&blocks);
    let (our_pool_blocks, zebrad_blocks, zakura_blocks) = network_totals(&blocks);
    let total_blocks = blocks.len() as u64;
    let unique_miners = distribution.len() as u64;
    NetworkMiningCore {
        blocks,
        distribution,
        total_blocks,
        our_pool_blocks,
        unique_miners,
        zebrad_blocks,
        zakura_blocks,
    }
}

} // verus!
