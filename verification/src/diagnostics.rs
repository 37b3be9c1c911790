//! The miner diagnostics page's live counters: the share counters of the
//! miner's active stratum sessions, summed.

use vstd::prelude::*;
use vstd::string::StringSliceAdditionalSpecFns;

use crate::text::{chars_of, copy_range, find_char, find_char_index, seq_equal};

verus! {

/// The share counters of one active stratum session.
pub struct SessionCounters {
    /// `address.worker` as the miner logged in.
    pub worker_name: String,
    pub shares_accepted: u64,
    pub shares_rejected_low_diff: u64,
    pub shares_rejected_job_not_found: u64,
    pub shares_rejected_other: u64,
}

/// One miner's live counters, summed over its active sessions (each sum
/// stops at `u64::MAX`).
pub struct LiveSessionCounts {
    pub active_sessions: usize,
    pub accepted: u64,
    pub rejected_low_diff: u64,
    pub rejected_job_not_found: u64,
    pub rejected_other: u64,
}

/// The address part of a worker name: what precedes its first `.`.
pub open spec fn worker_address(name: Seq<char>) -> Seq<char> {
    name.take(find_char(name, '.'))
}

/// Which of a session's counters a sum is over.
#[derive(Clone, Copy, PartialEq, Eq, Debug)]
pub enum Counter {
    Accepted,
    LowDiff,
    JobNotFound,
    Other,
}

/// One of a session's counters.
pub open spec fn counter_of(s: SessionCounters, c: Counter) -> u64 {
    match c {
        Counter::Accepted => s.shares_accepted,
        Counter::LowDiff => s.shares_rejected_low_diff,
        Counter::JobNotFound => s.shares_rejected_job_not_found,
        Counter::Other => s.shares_rejected_other,
    }
}

/// How many of the sessions belong to `address`.
pub open spec fn sessions_of(ss: Seq<SessionCounters>, address: Seq<char>) -> nat
    decreases ss.len(),
{
    if ss.len() == 0 {
        0
    } else {
        sessions_of(ss.drop_last(), address) + if worker_address(ss.last().worker_name@)
            == address {
            1nat
        } else {
            0nat
        }
    }
}

/// The exact sum of one counter over the sessions of `address`.
pub open spec fn counter_sum(ss: Seq<SessionCounters>, address: Seq<char>, c: Counter) -> nat
    decreases ss.len(),
{
    if ss.len() == 0 {
        0
    } else {
        counter_sum(ss.drop_last(), address, c) + if worker_address(ss.last().worker_name@)
            == address {
            counter_of(ss.last(), c) as nat
        } else {
            0nat
        }
    }
}

/// A sum, stopped at `u64::MAX`.
pub open spec fn capped(v: nat) -> u64 {
    if v > u64::MAX {
        u64::MAX
    } else {
        v as u64
    }
}

/// The counts state the sessions of `address` among `ss`.
pub open spec fn counts_match(c: LiveSessionCounts, ss: Seq<SessionCounters>, address: Seq<char>) -> bool {
    &&& c.active_sessions == sessions_of(ss, address)
    &&& c.accepted == capped(counter_sum(ss, address, Counter::Accepted))
    &&& c.rejected_low_diff == capped(counter_sum(ss, address, Counter::LowDiff))
    &&& c.rejected_job_not_found == capped(counter_sum(ss, address, Counter::JobNotFound))
    &&& c.rejected_other == capped(counter_sum(ss, address, Counter::Other))
}

/// Adding one session to the list: for a session of the address, the
/// session count grows by one and each sum grows by that session's own
/// same-named counter (stopping at `u64::MAX`); a session of another address
/// changes nothing.
pub proof fn law_session_adds_its_counters(
    before: LiveSessionCounts,
    after: LiveSessionCounts,
    ss: Seq<SessionCounters>,
    s: SessionCounters,
    address: Seq<char>,
)
    requires
        counts_match(before, ss, address),
        counts_match(after, ss.push(s), address),
    ensures
        worker_address(s.worker_name@) == address ==> {
            &&& after.active_sessions == before.active_sessions + 1
            &&& after.accepted == capped((before.accepted + s.shares_accepted) as nat)
            &&& after.rejected_low_diff == capped(
                (before.rejected_low_diff + s.shares_rejected_low_diff) as nat,
            )
            &&& after.rejected_job_not_found == capped(
                (before.rejected_job_not_found + s.shares_rejected_job_not_found) as nat,
            )
            &&& after.rejected_other == capped(
                (before.rejected_other + s.shares_rejected_other) as nat,
            )
        },
        worker_address(s.worker_name@) != address ==> {
            &&& after.active_sessions == before.active_sessions
            &&& after.accepted == before.accepted
            &&& after.rejected_low_diff == before.rejected_low_diff
            &&& after.rejected_job_not_found == before.rejected_job_not_found
            &&& after.rejected_other == before.rejected_other
        },
{
    let all = ss.push(s);
    assert(all.drop_last() =~= ss);
    assert(all.last() == s);
}

/// The counts of a single session, taken for its own address, are that
/// session's counters, each in its own place.
pub proof fn law_single_session_counts(c: LiveSessionCounts, s: SessionCounters)
    requires
        counts_match(c, seq![s], worker_address(s.worker_name@)),
    ensures
        c.active_sessions == 1,
        c.accepted == s.shares_accepted,
        c.rejected_low_diff == s.shares_rejected_low_diff,
        c.rejected_job_not_found == s.shares_rejected_job_not_found,
        c.rejected_other == s.shares_rejected_other,
{
    let one = seq![s];
    let a = worker_address(s.worker_name@);
    let none = Seq::<SessionCounters>::empty();
    assert(one.drop_last() =~= none);
    assert(one.last() == s);
    assert(sessions_of(none, a) == 0);
    assert(sessions_of(one, a) == 1);
    assert(counter_sum(none, a, Counter::Accepted) == 0);
    assert(counter_sum(one, a, Counter::Accepted) == s.shares_accepted);
    assert(counter_sum(none, a, Counter::LowDiff) == 0);
    assert(counter_sum(one, a, Counter::LowDiff) == s.shares_rejected_low_diff);
    assert(counter_sum(none, a, Counter::JobNotFound) == 0);
    assert(counter_sum(one, a, Counter::JobNotFound) == s.shares_rejected_job_not_found);
    assert(counter_sum(none, a, Counter::Other) == 0);
    assert(counter_sum(one, a, Counter::Other) == s.shares_rejected_other);
}

/// `a + b`, stopped at `u64::MAX`, keeping `a` the capped form of a sum.
fn add_capped(a: u64, b: u64, Ghost(sum): Ghost<nat>) -> (r: u64)
    requires
        a == capped(sum),
    ensures
        r == capped((sum + b) as nat),
{
    a.saturating_add(b)
}

fn worker_address_of(name: &str) -> (a: Vec<char>)
    ensures
        a@ == worker_address(name@),
{
    let c = chars_of(name);
    let dot = find_char_index(&c, '.');
    proof {
        crate::text::lemma_find_char(c@, '.');
    }
    copy_range(&c, 0, dot)
}

/// Sums the live counters of the sessions that belong to `address`: a
/// session belongs to it when its worker name, up to the first `.`, is the
/// address.
pub fn aggregate_live_sessions(sessions: &Vec<SessionCounters>, address: &str) -> (c:
    LiveSessionCounts)
    ensures
        counts_match(c, sessions@, address@),
{
    let want = chars_of(address);
    let mut c = LiveSessionCounts {
        active_sessions: 0,
        accepted: 0,
        rejected_low_diff: 0,
        rejected_job_not_found: 0,
        rejected_other: 0,
    };
    let mut i: usize = 0;
    assert(sessions@.take(0) =~= Seq::<SessionCounters>::empty());
    while i < sessions.len()
        invariant
            i <= sessions.len(),
            want@ == address@,
            c.active_sessions <= i,
            counts_match(c, sessions@.take(i as int), address@),
        decreases sessions.len() - i,
    {
        let ghost pre = sessions@.take(i as int);
        let ghost next = sessions@.take(i + 1);
        assert(next.drop_last() =~= pre);
        assert(next.last() == sessions@[i as int]);
        let s = &sessions[i];
        let a = worker_address_of(s.worker_name.as_str());
        if seq_equal(&a, &want) {
            c.active_sessions = c.active_sessions + 1;
            c.accepted = add_capped(
                c.accepted,
                s.shares_accepted,
                Ghost(counter_sum(pre, address@, Counter::Accepted)),
            );
            c.rejected_low_diff = add_capped(
                c.rejected_low_diff,
                s.shares_rejected_low_diff,
                Ghost(counter_sum(pre, address@, Counter::LowDiff)),
            );
            c.rejected_job_not_found = add_capped(
                c.rejected_job_not_found,
                s.shares_rejected_job_not_found,
                Ghost(counter_sum(pre, address@, Counter::JobNotFound)),
            );
            c.rejected_other = add_capped(
                c.rejected_other,
                s.shares_rejected_other,
                Ghost(counter_sum(pre, address@, Counter::Other)),
            );
        }
        i = i + 1;
    }
    assert(sessions@.take(i as int) =~= sessions@);
    c
}

/// `a >= b` for text, as `str` orders it: byte by byte, a proper prefix
/// before the longer text.
pub open spec fn bytes_at_least(a: Seq<u8>, b: Seq<u8>) -> bool
    decreases a.len(),
{
    if b.len() == 0 {
        true
    } else if a.len() == 0 {
        false
    } else if a[0] != b[0] {
        a[0] > b[0]
    } else {
        bytes_at_least(a.drop_first(), b.drop_first())
    }
}

/// A worker is online when it was last seen at or after the threshold, both
/// written `YYYY-MM-DD HH:MM:SS` so that text order is time order.
pub fn worker_is_online(last_seen: &str, online_threshold: &str) -> (online: bool)
    ensures
        online == bytes_at_least(last_seen.spec_bytes(), online_threshold.spec_bytes()),
{
    let a = last_seen.as_bytes();
    let b = online_threshold.as_bytes();
    let mut i: usize = 0;
    assert(a@.skip(0) =~= a@);
    assert(b@.skip(0) =~= b@);
    while i < a.len() && i < b.len() && a[i] == b[i]
        invariant
            i <= a@.len(),
            i <= b@.len(),
            bytes_at_least(a@, b@) == bytes_at_least(a@.skip(i as int), b@.skip(i as int)),
        decreases a@.len() - i,
    {
        assert(a@.skip(i as int).drop_first() =~= a@.skip(i + 1));
        assert(b@.skip(i as int).drop_first() =~= b@.skip(i + 1));
        i = i + 1;
    }
    if i == b.len() {
        true
    } else if i == a.len() {
        false
    } else {
        assert(a@.skip(i as int)[0] == a@[i as int]);
        assert(b@.skip(i as int)[0] == b@[i as int]);
        a[i] > b[i]
    }
}

} // verus!
