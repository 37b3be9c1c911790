//! What the public API's handlers decide once their inputs are read: the
//! node's template freshness, share counters, the public PPS health, the
//! wallet's health snapshot, the health endpoint, the payout nudge, the
//! immature-block table and the wallet status page.

use std::collections::VecDeque;
use vstd::prelude::*;
use vstd::string::StringSliceAdditionalSpecFns;

use crate::codec::{hex_decode, hex_decoded, hex_encode, hex_text};
use crate::sorting::{sort_desc, sort_desc_vec, SortKey};
use crate::text::{
    chars_of, concat_str, decimal, decimal_string, opt_view, parse_i64, parse_i64_spec, parse_u64,
    parse_u64_spec, push_char,
};

verus! {

broadcast use vstd::seq_lib::to_multiset_insert;

/// If no template arrived for this many milliseconds, the pool counts as
/// stalled.
pub const STALL_THRESHOLD_MS: i64 = 90_000;

/// One stratum port and what it is for.
#[derive(Debug, Clone)]
pub struct StratumPortInfo {
    pub port: u16,
    pub description: String,
}

/// The public, bounded view of the PPS engine's health.
pub struct PpsPublicStatus {
    pub invariant_ok: bool,
    pub chain_lease_current: bool,
    pub last_checked_at: String,
}

/// One miner's PPS account, as the miner page shows it.
#[derive(Debug, PartialEq, Eq)]
pub struct PpsMinerBalance {
    pub pending_zatoshis: i64,
    pub paying_zatoshis: i64,
    pub paid_zatoshis: i64,
    pub fractional_subzatoshis: String,
    pub subzatoshis_per_zatoshi: String,
}

/// A worker of a miner and when it was last seen.
pub struct WorkerInfo {
    pub name: String,
    pub last_seen: String,
}

/// The body of an error answer.
pub struct ApiError {
    pub error: String,
}

/// The wallet's balances as the wallet page shows them (8 decimals of ZEC).
pub struct ZalletBalance {
    pub transparent: String,
    pub private: String,
    pub total: String,
}

/// What the wallet page shows: whether the wallet answered, its balances,
/// or why not.
pub struct ZalletStatus {
    pub rpc_ok: bool,
    pub balance: Option<ZalletBalance>,
    pub error: Option<String>,
}

/// The stratum URL miners connect to: `stratum+tcp://host:port`.
pub fn stratum_url(hostname: &str, port: u16) -> (url: String)
    ensures
        url@ == "stratum+tcp://"@ + hostname@ + seq![':'] + decimal(port as int),
{
    let mut url = concat_str("stratum+tcp://", hostname);
    push_char(&mut url, ':');
    let p = decimal_string(port as i128);
    concat_str(url.as_str(), p.as_str())
}

// ---------------------------------------------------------------------------
// Template freshness
// ---------------------------------------------------------------------------

/// The RFC 3339 text of a time given in Unix milliseconds, in UTC, when the
/// time is representable.
pub uninterp spec fn rfc3339_of_millis(ms: i64) -> Option<Seq<char>>;

/// `chrono::Utc.timestamp_millis_opt(ms).single().map(|dt| dt.to_rfc3339())`:
/// the text is named, not described.
#[verifier::external_body]
fn millis_to_rfc3339(ms: i64) -> (r: Option<String>)
    ensures
        opt_view(r) == rfc3339_of_millis(ms),
{
    match chrono::TimeZone::timestamp_millis_opt(&chrono::Utc, ms).single() {
        Some(dt) => Some(dt.to_rfc3339()),
        None => None,
    }
}

/// Template freshness from the time of the last template: fresh when less
/// than the stall threshold has passed, and that time in RFC 3339.
pub open spec fn spec_template_status(ms: i64, now_ms: int) -> (bool, Option<Seq<char>>) {
    (now_ms - ms < STALL_THRESHOLD_MS, rfc3339_of_millis(ms))
}

/// Whether the node serves templates, and when it last did: from the live
/// counter when it holds a time, else from the stored status (a decimal
/// time), else `(true, None)`, stall tracking not being set up.
pub open spec fn spec_last_template(live_ms: Option<i64>, stored: Option<Seq<char>>, now_ms: int) -> (
    bool,
    Option<Seq<char>>,
) {
    if live_ms matches Some(ms) && ms > 0 {
        spec_template_status(live_ms.unwrap(), now_ms)
    } else if stored matches Some(v) && parse_i64_spec(v, 10) matches Some(ms) && ms > 0 {
        spec_template_status(parse_i64_spec(stored.unwrap(), 10).unwrap(), now_ms)
    } else {
        (true, None)
    }
}

fn template_status(ms: i64, now_ms: i64) -> (r: (bool, Option<String>))
    ensures
        (r.0, opt_view(r.1)) == spec_template_status(ms, now_ms as int),
{
    let age: i128 = (now_ms as i128) - (ms as i128);
    (age < (STALL_THRESHOLD_MS as i128), millis_to_rfc3339(ms))
}

/// The node's template freshness: `live_ms` is the live counter (absent
/// when the dashboard runs apart from the pool), `stored` the stored status
/// text, `now_ms` the time in Unix milliseconds.
pub fn last_template_status(live_ms: Option<i64>, stored: Option<String>, now_ms: i64) -> (r: (
    bool,
    Option<String>,
))
    ensures
        (r.0, opt_view(r.1)) == spec_last_template(live_ms, opt_view(stored), now_ms as int),
{
    if let Some(ms) = live_ms {
        if ms > 0 {
            return template_status(ms, now_ms);
        }
    }
    if let Some(v) = stored {
        let c = chars_of(v.as_str());
        if let Some(ms) = parse_i64(&c, 10) {
            if ms > 0 {
                return template_status(ms, now_ms);
            }
        }
    }
    (true, None)
}

// ---------------------------------------------------------------------------
// Counters
// ---------------------------------------------------------------------------

/// A counter kept as decimal text in the status table: its value, or 0 when
/// absent or not a `u64`.
pub open spec fn spec_status_counter(stored: Option<Seq<char>>) -> u64 {
    match stored {
        Some(v) => match parse_u64_spec(v, 10) {
            Some(n) => n,
            None => 0,
        },
        None => 0,
    }
}

/// Reads a counter kept as decimal text in the status table.
pub fn status_counter(stored: &Option<String>) -> (n: u64)
    ensures
        n == spec_status_counter(opt_view(*stored)),
{
    match stored {
        Some(v) => {
            let c = chars_of(v.as_str());
            match parse_u64(&c, 10) {
                Some(n) => n,
                None => 0,
            }
        },
        None => 0,
    }
}

/// Accepted and rejected shares: the live counters when either is non-zero,
/// else the stored ones.
pub fn shares_counters(
    live_accepted: u64,
    live_rejected: u64,
    stored_accepted: &Option<String>,
    stored_rejected: &Option<String>,
) -> (r: (u64, u64))
    ensures
        r == if live_accepted > 0 || live_rejected > 0 {
            (live_accepted, live_rejected)
        } else {
            (
                spec_status_counter(opt_view(*stored_accepted)),
                spec_status_counter(opt_view(*stored_rejected)),
            )
        },
{
    if live_accepted > 0 || live_rejected > 0 {
        return (live_accepted, live_rejected);
    }
    (status_counter(stored_accepted), status_counter(stored_rejected))
}

// ---------------------------------------------------------------------------
// Public PPS health
// ---------------------------------------------------------------------------

/// The fields of the stored PPS health record that the public page reads;
/// each is absent when missing or of another JSON type.
pub struct PpsHealthRecord {
    /// `last_run`, when it is a string.
    pub last_run: Option<String>,
    /// `invariant_ok`, when it is a boolean.
    pub invariant_ok: Option<bool>,
    /// `chain_lease_current`, when it is a boolean.
    pub chain_lease_current: Option<bool>,
    /// `chain_valid_until_unix`, when it is an integer that fits an `i64`.
    pub chain_valid_until_unix: Option<i64>,
}

/// The Unix seconds of an RFC 3339 time, when the text is one.
pub uninterp spec fn rfc3339_seconds(s: Seq<char>) -> Option<i64>;

/// `chrono::DateTime::parse_from_rfc3339(s).ok().map(|t| t.timestamp())`:
/// whether the text parses, and the time, are named, not described.
#[verifier::external_body]
fn rfc3339_unix_secs(s: &str) -> (r: Option<i64>)
    ensures
        r == rfc3339_seconds(s@),
{
    match chrono::DateTime::parse_from_rfc3339(s) {
        Ok(t) => Some(t.timestamp()),
        Err(_) => None,
    }
}

/// A health check counts as fresh when it ran 0 to 90 seconds ago.
pub open spec fn pps_fresh(checked: i64, now: int) -> bool {
    0 <= now - checked <= 90
}

/// The public status can be given: the record names when the check ran,
/// that time parses, and when the check is fresh the flags it needs are
/// there (the lease deadline only when the lease is current).
pub open spec fn pps_status_known(rec: PpsHealthRecord, checked: Option<i64>, now: int) -> bool {
    &&& rec.last_run is Some
    &&& checked is Some
    &&& pps_fresh(checked.unwrap(), now) ==> {
        &&& rec.invariant_ok is Some
        &&& rec.chain_lease_current is Some
        &&& rec.chain_lease_current == Some(true) ==> rec.chain_valid_until_unix is Some
    }
}

/// The public status: each flag holds only when the check is fresh and
/// reported it, the lease also only while its deadline is ahead of `now`.
pub open spec fn pps_status_matches(
    st: PpsPublicStatus,
    rec: PpsHealthRecord,
    checked: Option<i64>,
    now: int,
) -> bool {
    let fresh = pps_fresh(checked.unwrap(), now);
    &&& st.invariant_ok == (fresh && rec.invariant_ok.unwrap())
    &&& st.chain_lease_current == (fresh && rec.chain_lease_current.unwrap()
        && rec.chain_valid_until_unix.unwrap() > now)
    &&& st.last_checked_at@ == rec.last_run.unwrap()@
}

/// The public PPS status from the record, the parsed time of its check
/// (`checked`) and the time `now` in Unix seconds.
pub fn pps_status_from(rec: &PpsHealthRecord, checked: Option<i64>, now: i64) -> (r: Option<
    PpsPublicStatus,
>)
    ensures
        r is Some <==> pps_status_known(*rec, checked, now as int),
        r matches Some(st) ==> pps_status_matches(st, *rec, checked, now as int),
{
    let last = match &rec.last_run {
        Some(l) => l,
        None => {
            return None;
        },
    };
    let t = match checked {
        Some(t) => t,
        None => {
            return None;
        },
    };
    let age: i128 = (now as i128) - (t as i128);
    let fresh = 0 <= age && age <= 90;
    let invariant_ok = if fresh {
        match rec.invariant_ok {
            Some(b) => b,
            None => {
                return None;
            },
        }
    } else {
        false
    };
    let chain_lease_current = if fresh {
        match rec.chain_lease_current {
            Some(true) => match rec.chain_valid_until_unix {
                Some(until) => until > now,
                None => {
                    return None;
                },
            },
            Some(false) => false,
            None => {
                return None;
            },
        }
    } else {
        false
    };
    Some(PpsPublicStatus { invariant_ok, chain_lease_current, last_checked_at: last.clone() })
}

/// The public PPS status of a stored health record at `now` (Unix seconds).
pub fn pps_public_status(rec: &PpsHealthRecord, now: i64) -> (r: Option<PpsPublicStatus>)
    ensures
        ({
            let checked = match rec.last_run {
                Some(l) => rfc3339_seconds(l@),
                None => None,
            };
            &&& r is Some <==> pps_status_known(*rec, checked, now as int)
            &&& r matches Some(st) ==> pps_status_matches(st, *rec, checked, now as int)
        }),
{
    let checked = match &rec.last_run {
        Some(l) => rfc3339_unix_secs(l.as_str()),
        None => None,
    };
    pps_status_from(rec, checked, now)
}

// ---------------------------------------------------------------------------
// Wallet health snapshot
// ---------------------------------------------------------------------------

/// The fields of the payout loop's health snapshot that the wallet check
/// reads.
pub struct PayoutHealthRecord {
    /// `wallet_responsive`, when it is a boolean.
    pub wallet_responsive: Option<bool>,
    /// `checked_at`, when it is a string.
    pub checked_at: Option<String>,
}

/// `chrono::Utc::now().signed_duration_since(parse_from_rfc3339(s)).num_minutes()`:
/// whole minutes (rounded toward zero) since the time `s` names. The value
/// rests on the clock and is not stated; that it is there exactly when the
/// text parses is.
#[verifier::external_body]
fn minutes_since(s: &str) -> (r: Option<i64>)
    ensures
        r is Some <==> rfc3339_seconds(s@) is Some,
{
    match chrono::DateTime::parse_from_rfc3339(s) {
        Ok(t) => Some(chrono::Utc::now().signed_duration_since(t).num_minutes()),
        Err(_) => None,
    }
}

/// The wallet counts as healthy when a wallet is configured, a snapshot was
/// read, it reported the wallet responsive, and its check is less than 15
/// minutes old.
pub open spec fn spec_wallet_healthy(
    configured: bool,
    responsive: Option<bool>,
    minutes: Option<i64>,
) -> bool {
    configured && responsive == Some(true) && (minutes matches Some(m) && m < 15)
}

/// The wallet's health from the snapshot's fields and the minutes since its
/// check.
pub fn wallet_health_from(configured: bool, responsive: Option<bool>, minutes: Option<i64>) -> (ok:
    bool)
    ensures
        ok == spec_wallet_healthy(configured, responsive, minutes),
{
    if !configured {
        return false;
    }
    let responsive = match responsive {
        Some(b) => b,
        None => false,
    };
    let fresh = match minutes {
        Some(m) => m < 15,
        None => false,
    };
    responsive && fresh
}

/// The wallet's health from the stored snapshot (`None` when it could not be
/// read or parsed).
pub fn wallet_healthy(configured: bool, snapshot: &Option<PayoutHealthRecord>) -> (ok: bool)
    ensures
        ok ==> configured && (snapshot matches Some(h) && h.wallet_responsive == Some(true)
            && (h.checked_at matches Some(c) && rfc3339_seconds(c@) is Some)),
        !configured || snapshot is None ==> !ok,
{
    if !configured {
        return false;
    }
    match snapshot {
        Some(h) => {
            let minutes = match &h.checked_at {
                Some(c) => minutes_since(c.as_str()),
                None => None,
            };
            wallet_health_from(true, h.wallet_responsive, minutes)
        },
        None => false,
    }
}

// ---------------------------------------------------------------------------
// Round shares for the mining-pool-stats endpoint
// ---------------------------------------------------------------------------

/// The Unix seconds of a `YYYY-MM-DD HH:MM:SS` time read as UTC, when the
/// text is one.
pub uninterp spec fn naive_utc_seconds(s: Seq<char>) -> Option<i64>;

/// `chrono::NaiveDateTime::parse_from_str(s, "%Y-%m-%d %H:%M:%S")`, then
/// `.and_utc().timestamp()`: whether the text parses, and the time, are
/// named, not described.
#[verifier::external_body]
fn parse_naive_utc(s: &str) -> (r: Option<i64>)
    ensures
        r == naive_utc_seconds(s@),
{
    match chrono::NaiveDateTime::parse_from_str(s, "%Y-%m-%d %H:%M:%S") {
        Ok(dt) => Some(dt.and_utc().timestamp()),
        Err(_) => None,
    }
}

/// The `YYYY-MM-DD HH:MM:SS` text (UTC) of a time in Unix seconds, when the
/// time is representable.
pub uninterp spec fn utc_seconds_text(t: i64) -> Option<Seq<char>>;

/// `chrono::DateTime::from_timestamp(t, 0)` formatted with
/// `"%Y-%m-%d %H:%M:%S"`: the text is named, not described.
#[verifier::external_body]
fn format_utc_seconds(t: i64) -> (r: Option<String>)
    ensures
        opt_view(r) == utc_seconds_text(t),
{
    match chrono::DateTime::from_timestamp(t, 0) {
        Some(d) => Some(d.format("%Y-%m-%d %H:%M:%S").to_string()),
        None => None,
    }
}

/// When the last block was found, in Unix seconds, from its stored
/// `created_at`; 0 when there is no block or the text is not a time.
pub fn last_block_found_secs(created_at: Option<&str>) -> (t: i64)
    ensures
        t == match created_at {
            Some(s) => match naive_utc_seconds(s@) {
                Some(v) => v,
                None => 0,
            },
            None => 0,
        },
{
    match created_at {
        Some(s) => match parse_naive_utc(s) {
            Some(v) => v,
            None => 0,
        },
        None => 0,
    }
}

/// Where the current round's shares are counted from: `Some` time text (the
/// last block's time, or the epoch when it cannot be written) when a block
/// was found; `None` when none was, and the round is every share.
pub fn round_shares_since(last_block_found: i64) -> (r: Option<String>)
    ensures
        last_block_found > 0 ==> opt_view(r) == Some(
            match utc_seconds_text(last_block_found) {
                Some(x) => x,
                None => "1970-01-01 00:00:00"@,
            },
        ),
        last_block_found <= 0 ==> r is None,
{
    if last_block_found > 0 {
        match format_utc_seconds(last_block_found) {
            Some(x) => Some(x),
            None => Some("1970-01-01 00:00:00".to_owned()),
        }
    } else {
        None
    }
}

// ---------------------------------------------------------------------------
// Health endpoint and payout nudge
// ---------------------------------------------------------------------------

/// The health endpoint's answer: HTTP status, `status` and `reason`.
pub fn health_report(ok: bool) -> (r: (u16, &'static str, &'static str))
    ensures
        r.0 == (if ok {
            200u16
        } else {
            503u16
        }),
        r.1@ == (if ok {
            "ok"@
        } else {
            "stalled"@
        }),
        r.2@ == (if ok {
            "ok"@
        } else {
            "node has not returned a block template recently; pool may be stalled"@
        }),
{
    if ok {
        (200, "ok", "ok")
    } else {
        (503, "stalled", "node has not returned a block template recently; pool may be stalled")
    }
}

/// What a manual payout request does.
#[derive(Clone, Copy, PartialEq, Eq, Debug)]
pub enum PayoutTrigger {
    /// No wallet or no pool address configured: 503.
    NotConfigured,
    /// The payout loop is woken: 200.
    NudgeLoop,
    /// Payouts are configured but their loop is not running: 503.
    LoopNotRunning,
}

/// The manual payout request only wakes the payout loop, and only when
/// payouts are configured and the loop runs.
pub fn payout_trigger(wallet_configured: bool, pool_address_configured: bool, loop_running: bool) -> (t:
    PayoutTrigger)
    ensures
        t == if !wallet_configured || !pool_address_configured {
            PayoutTrigger::NotConfigured
        } else if loop_running {
            PayoutTrigger::NudgeLoop
        } else {
            PayoutTrigger::LoopNotRunning
        },
{
    if !wallet_configured || !pool_address_configured {
        PayoutTrigger::NotConfigured
    } else if loop_running {
        PayoutTrigger::NudgeLoop
    } else {
        PayoutTrigger::LoopNotRunning
    }
}

/// The answer's message for a payout request.
pub fn payout_trigger_message(t: PayoutTrigger) -> (m: &'static str)
    ensures
        m@ == match t {
            PayoutTrigger::NotConfigured => "Payouts not configured on this dashboard"@,
            PayoutTrigger::NudgeLoop => "payout loop nudged; the hardened pipeline will run within seconds"@,
            PayoutTrigger::LoopNotRunning => "payout loop is not running (payouts disabled in config)"@,
        },
{
    match t {
        PayoutTrigger::NotConfigured => "Payouts not configured on this dashboard",
        PayoutTrigger::NudgeLoop => "payout loop nudged; the hardened pipeline will run within seconds",
        PayoutTrigger::LoopNotRunning => "payout loop is not running (payouts disabled in config)",
    }
}

// ---------------------------------------------------------------------------
// Small conversions
// ---------------------------------------------------------------------------

/// The hex of the bytes of `hex_str` in reverse order (a byte-order swap of
/// a hash); text that is not hex reads as no bytes.
pub fn reverse_hex(hex_str: &str) -> (r: String)
    ensures
        r@ == hex_text(
            match hex_decoded(hex_str.spec_bytes()) {
                Some(b) => b.reverse(),
                None => Seq::<u8>::empty(),
            },
        ),
{
    let bytes: Vec<u8> = match hex_decode(hex_str.as_bytes()) {
        Some(b) => b,
        None => Vec::new(),
    };
    let mut reversed: Vec<u8> = Vec::new();
    let mut i: usize = bytes.len();
    while i > 0
        invariant
            i <= bytes.len(),
            reversed@ == bytes@.skip(i as int).reverse(),
        decreases i,
    {
        i = i - 1;
        reversed.push(bytes[i]);
        assert(reversed@ =~= bytes@.skip(i as int).reverse());
    }
    assert(bytes@.skip(0) =~= bytes@);
    hex_encode(reversed.as_slice())
}

/// How a payout's miner is named when its address cannot be read:
/// `miner#` and its id.
pub fn payout_miner_label(address: Option<String>, miner_id: i64) -> (s: String)
    ensures
        s@ == match address {
            Some(a) => a@,
            None => "miner#"@ + decimal(miner_id as int),
        },
{
    match address {
        Some(a) => a,
        None => {
            let id = decimal_string(miner_id as i128);
            concat_str("miner#", id.as_str())
        },
    }
}

impl PpsMinerBalance {
    /// A miner's PPS account row: pending, paying and paid zatoshis, the
    /// fraction in sub-zatoshis and the sub-zatoshi scale, both as decimal
    /// text.
    pub fn from_account(pending: i64, paying: i64, paid: i64, fraction: i64, scale: i128) -> (b:
        PpsMinerBalance)
        ensures
            b.pending_zatoshis == pending,
            b.paying_zatoshis == paying,
            b.paid_zatoshis == paid,
            b.fractional_subzatoshis@ == decimal(fraction as int),
            b.subzatoshis_per_zatoshi@ == decimal(scale as int),
    {
        PpsMinerBalance {
            pending_zatoshis: pending,
            paying_zatoshis: paying,
            paid_zatoshis: paid,
            fractional_subzatoshis: decimal_string(fraction as i128),
            subzatoshis_per_zatoshi: decimal_string(scale),
        }
    }
}

/// The wallet page's status: `None` when no wallet is configured, else the
/// wallet's answer (its balances, or the error text).
pub fn zallet_status(reply: Option<Result<ZalletBalance, String>>) -> (s: ZalletStatus)
    ensures
        match reply {
            None => !s.rpc_ok && s.balance is None && opt_view(s.error) == Some(
                "Wallet RPC not configured (payout.wallet_rpc_url)"@,
            ),
            Some(Ok(b)) => s.rpc_ok && s.balance == Some(b) && s.error is None,
            Some(Err(e)) => !s.rpc_ok && s.balance is None && opt_view(s.error) == Some(
                "RPC error: "@ + e@,
            ),
        },
{
    match reply {
        None => ZalletStatus {
            rpc_ok: false,
            balance: None,
            error: Some("Wallet RPC not configured (payout.wallet_rpc_url)".to_owned()),
        },
        Some(Ok(b)) => ZalletStatus { rpc_ok: true, balance: Some(b), error: None },
        Some(Err(e)) => ZalletStatus {
            rpc_ok: false,
            balance: None,
            error: Some(concat_str("RPC error: ", e.as_str())),
        },
    }
}

// ---------------------------------------------------------------------------
// Immature blocks
// ---------------------------------------------------------------------------

/// A block of ours that awaits maturity.
pub struct PendingBlock {
    pub height: i64,
    pub reward: i64,
    pub created_at: String,
}

/// A row of the maturity table.
pub struct ImmatureRow {
    pub height: i64,
    pub reward_zatoshis: i64,
    pub confirmations: i64,
    pub required: u64,
    pub found_at: String,
}

impl SortKey for ImmatureRow {
    open spec fn sort_key(&self) -> int {
        self.height as int
    }

    fn key(&self) -> (k: i128) {
        self.height as i128
    }
}

/// The row of a pending block: its confirmations are the blocks above it
/// (not below zero).
pub open spec fn immature_row(b: PendingBlock, current_height: i64, required: u64) -> ImmatureRow {
    let c = current_height - b.height;
    ImmatureRow {
        height: b.height,
        reward_zatoshis: b.reward,
        confirmations: if c > 0 {
            c as i64
        } else {
            0
        },
        required,
        found_at: b.created_at,
    }
}

/// The maturity table: one row per pending block, highest first (blocks of
/// equal height keep their order).
pub fn immature_rows(current_height: i64, pending: Vec<PendingBlock>, required: u64) -> (rows: Vec<
    ImmatureRow,
>)
    requires
        forall|i: int|
            0 <= i < pending@.len() ==> i64::MIN <= current_height - (#[trigger] pending@[i]).height
                <= i64::MAX,
    ensures
        rows@ == sort_desc(pending@.map_values(|b: PendingBlock| immature_row(b, current_height, required))),
{
    let ghost orig = pending@;
    let ghost mapped = orig.map_values(|b: PendingBlock| immature_row(b, current_height, required));
    let total = pending.len();
    let mut rest = pending;
    let mut out: Vec<ImmatureRow> = Vec::new();
    let mut done: usize = 0;
    assert(orig.skip(0) =~= orig);
    while rest.len() > 0
        invariant
            done <= total,
            total == orig.len(),
            rest@ == orig.skip(done as int),
            out@ == mapped.take(done as int),
            mapped == orig.map_values(|b: PendingBlock| immature_row(b, current_height, required)),
            forall|i: int|
                0 <= i < orig.len() ==> i64::MIN <= current_height - (#[trigger] orig[i]).height
                    <= i64::MAX,
        decreases rest.len(),
    {
        let b = rest.remove(0);
        assert(b == orig[done as int]);
        assert(rest@ =~= orig.skip(done + 1));
        let c = current_height - b.height;
        let row = ImmatureRow {
            height: b.height,
            reward_zatoshis: b.reward,
            confirmations: if c > 0 {
                c
            } else {
                0
            },
            required,
            found_at: b.created_at,
        };
        assert(row == mapped[done as int]);
        out.push(row);
        done = done + 1;
        assert(out@ =~= mapped.take(done as int));
    }
    assert(mapped.take(done as int) =~= mapped);
    sort_desc_vec(out)
}

// ---------------------------------------------------------------------------
// Stats history
// ---------------------------------------------------------------------------

/// How many snapshots the history keeps (one hour at one per 10 s).
pub const STATS_HISTORY_CAPACITY: usize = 360;

/// The history after one more snapshot: the oldest leaves once it is full.
pub open spec fn history_push<T>(h: Seq<T>, x: T) -> Seq<T> {
    if h.len() >= STATS_HISTORY_CAPACITY {
        h.drop_first().push(x)
    } else {
        h.push(x)
    }
}

/// The history after the snapshots `xs`, pushed in order onto `h`.
pub open spec fn history_after<T>(h: Seq<T>, xs: Seq<T>) -> Seq<T>
    decreases xs.len(),
{
    if xs.len() == 0 {
        h
    } else {
        history_push(history_after(h, xs.drop_last()), xs.last())
    }
}

/// A fixed-capacity ring of stats snapshots, oldest first.
pub struct StatsHistory<T> {
    buffer: VecDeque<T>,
}

impl<T> View for StatsHistory<T> {
    type V = Seq<T>;

    closed spec fn view(&self) -> Seq<T> {
        self.buffer@
    }
}

impl<T> StatsHistory<T> {
    /// The ring never holds more than its capacity.
    #[verifier::type_invariant]
    spec fn within_capacity(self) -> bool {
        self.buffer@.len() <= STATS_HISTORY_CAPACITY
    }
}

impl<T: Copy> StatsHistory<T> {
    /// An empty history.
    pub fn new() -> (h: Self)
        ensures
            h@ == Seq::<T>::empty(),
    {
        StatsHistory { buffer: VecDeque::with_capacity(STATS_HISTORY_CAPACITY) }
    }

    /// Records a snapshot, dropping the oldest when the ring is full.
    pub fn push(&mut self, snapshot: T)
        ensures
            final(self)@ == history_push(old(self)@, snapshot),
            final(self)@.len() <= STATS_HISTORY_CAPACITY,
    {
        proof {
            use_type_invariant(&*self);
        }
        let ghost before = self.buffer@;
        let mut buf: VecDeque<T> = VecDeque::new();
        std::mem::swap(&mut buf, &mut self.buffer);
        if buf.len() >= STATS_HISTORY_CAPACITY {
            let _ = buf.pop_front();
            assert(buf@ =~= before.drop_first());
        }
        buf.push_back(snapshot);
        self.buffer = buf;
    }

    /// Every snapshot, oldest first.
    pub fn get_all(&self) -> (all: Vec<T>)
        ensures
            all@ == self@,
            all@.len() <= STATS_HISTORY_CAPACITY,
    {
        proof {
            use_type_invariant(self);
        }
        let mut all: Vec<T> = Vec::new();
        let mut i: usize = 0;
        while i < self.buffer.len()
            invariant
                i <= self.buffer@.len(),
                all@ == self.buffer@.take(i as int),
            decreases self.buffer@.len() - i,
        {
            let x: T = self.buffer[i];
            all.push(x);
            i = i + 1;
            assert(all@ =~= self.buffer@.take(i as int));
        }
        assert(self.buffer@.take(i as int) =~= self.buffer@);
        all
    }

    /// The newest snapshot.
    pub fn latest(&self) -> (x: Option<T>)
        ensures
            x == if self@.len() == 0 {
                None
            } else {
                Some(self@.last())
            },
    {
        let n = self.buffer.len();
        if n == 0 {
            None
        } else {
            Some(self.buffer[n - 1])
        }
    }
}

/// From empty, the history holds the last (up to capacity) snapshots
/// pushed, oldest first.
pub proof fn law_history_keeps_latest<T>(xs: Seq<T>)
    ensures
        history_after(Seq::<T>::empty(), xs) == if xs.len() <= STATS_HISTORY_CAPACITY {
            xs
        } else {
            xs.skip(xs.len() - STATS_HISTORY_CAPACITY)
        },
    decreases xs.len(),
{
    if xs.len() > 0 {
        let init = xs.drop_last();
        law_history_keeps_latest(init);
        let h = history_after(Seq::<T>::empty(), init);
        if init.len() < STATS_HISTORY_CAPACITY {
            assert(h.push(xs.last()) =~= xs);
        } else if init.len() == STATS_HISTORY_CAPACITY {
            assert(h.drop_first().push(xs.last()) =~= xs.skip(xs.len() - STATS_HISTORY_CAPACITY));
        } else {
            assert(h.drop_first().push(xs.last()) =~= xs.skip(xs.len() - STATS_HISTORY_CAPACITY));
        }
    }
}

} // verus!
