//! A second opinion on the chain tip: the answers of several public
//! lightwalletd servers, aggregated. The tip is the highest height any
//! server gave; which servers answered and which failed stays visible.

use vstd::prelude::*;

use crate::strmap::StrMap;

verus! {

/// One server's answer: its host and the height it gave, or why it failed.
pub type ServerReply = (String, Result<u64, String>);

/// The snapshot the dashboard renders.
pub struct AuthoritativeTip {
    /// The highest height any server gave; `None` when none answered.
    pub max_height: Option<u64>,
    /// Each answering server's height.
    pub per_server_height: StrMap<u64>,
    /// Each failing server's error.
    pub per_server_error: StrMap<String>,
    pub responses_ok: usize,
    pub responses_total: usize,
    /// When the snapshot was taken, in Unix seconds.
    pub fetched_at_unix: Option<i64>,
}

/// The heights of the answers, a later answer of a host replacing an
/// earlier one.
pub open spec fn height_map(rs: Seq<ServerReply>) -> Map<Seq<char>, u64>
    decreases rs.len(),
{
    if rs.len() == 0 {
        Map::empty()
    } else {
        let m = height_map(rs.drop_last());
        match rs.last().1 {
            Ok(h) => m.insert(rs.last().0@, h),
            Err(_) => m,
        }
    }
}

/// The errors of the answers, a later answer of a host replacing an
/// earlier one.
pub open spec fn error_map(rs: Seq<ServerReply>) -> Map<Seq<char>, String>
    decreases rs.len(),
{
    if rs.len() == 0 {
        Map::empty()
    } else {
        let m = error_map(rs.drop_last());
        match rs.last().1 {
            Ok(_) => m,
            Err(e) => m.insert(rs.last().0@, e),
        }
    }
}

/// `h` is the highest value of `m`, or `None` for an empty map.
pub open spec fn is_max_value(m: Map<Seq<char>, u64>, h: Option<u64>) -> bool {
    match h {
        None => m.dom().len() == 0,
        Some(v) => (exists|k: Seq<char>| m.dom().contains(k) && m[k] == v) && forall|k: Seq<char>|
            #[trigger] m.dom().contains(k) ==> m[k] <= v,
    }
}

impl AuthoritativeTip {
    /// The snapshot of no answers.
    pub fn empty() -> (t: Self)
        ensures
            t.max_height is None,
            t.per_server_height@ == Map::<Seq<char>, u64>::empty(),
            t.per_server_error@ == Map::<Seq<char>, String>::empty(),
            t.responses_ok == 0,
            t.responses_total == 0,
            t.fetched_at_unix is None,
    {
        AuthoritativeTip {
            max_height: None,
            per_server_height: StrMap::new(),
            per_server_error: StrMap::new(),
            responses_ok: 0,
            responses_total: 0,
            fetched_at_unix: None,
        }
    }

    /// Aggregates the servers' answers, taken at `fetched_at` (Unix seconds)
    /// out of `total` servers asked: heights and errors by host, the highest
    /// height, and how many hosts answered.
    pub fn from_replies(replies: Vec<ServerReply>, total: usize, fetched_at: i64) -> (t: Self)
        ensures
            t.per_server_height@ == height_map(replies@),
            t.per_server_error@ == error_map(replies@),
            is_max_value(t.per_server_height@, t.max_height),
            t.responses_ok == t.per_server_height@.dom().len(),
            t.responses_total == total,
            t.fetched_at_unix == Some(fetched_at),
    {
        let ghost orig = replies@;
        let n = replies.len();
        let mut rest = replies;
        let mut ok: StrMap<u64> = StrMap::new();
        let mut err: StrMap<String> = StrMap::new();
        let mut done: usize = 0;
        assert(orig.skip(0) =~= orig);
        assert(orig.take(0) =~= Seq::<ServerReply>::empty());
        while rest.len() > 0
            invariant
                done <= n,
                n == orig.len(),
                rest@ == orig.skip(done as int),
                ok@ == height_map(orig.take(done as int)),
                err@ == error_map(orig.take(done as int)),
            decreases rest.len(),
        {
            let (host, reply) = rest.remove(0);
            assert(orig[done as int] == (host, reply));
            assert(rest@ =~= orig.skip(done + 1));
            assert(orig.take(done + 1).drop_last() =~= orig.take(done as int));
            assert(orig.take(done + 1).last() == orig[done as int]);
            match reply {
                Ok(h) => {
                    ok.insert(host, h);
                },
                Err(e) => {
                    err.insert(host, e);
                },
            }
            done = done + 1;
        }
        assert(orig.take(done as int) =~= orig);
        let max_height = Self::highest(&ok);
        let responses_ok = ok.len();
        AuthoritativeTip {
            max_height,
            per_server_height: ok,
            per_server_error: err,
            responses_ok,
            responses_total: total,
            fetched_at_unix: Some(fetched_at),
        }
    }

    /// The highest height of a map of heights.
    fn highest(m: &StrMap<u64>) -> (r: Option<u64>)
        ensures
            is_max_value(m@, r),
    {
        let es = m.entries();
        let mut best: Option<u64> = None;
        let mut i: usize = 0;
        while i < es.len()
            invariant
                i <= es@.len(),
                es@ == m.entry_seq(),
                forall|q: int|
                    0 <= q < es@.len() ==> #[trigger] m@[es@[q].0@] == es@[q].1 && m@.dom().contains(
                        es@[q].0@,
                    ),
                best is None <==> i == 0,
                best matches Some(v) ==> (exists|q: int| 0 <= q < i && es@[q].1 == v) && forall|
                    q: int,
                | 0 <= q < i ==> #[trigger] es@[q].1 <= v,
            decreases es@.len() - i,
        {
            let h = es[i].1;
            best = match best {
                None => Some(h),
                Some(v) => if h > v {
                    Some(h)
                } else {
                    Some(v)
                },
            };
            i = i + 1;
        }
        proof {
            match best {
                None => {
                    assert(m.entry_seq().len() == 0);
                },
                Some(v) => {
                    let q = choose|q: int| 0 <= q < i && es@[q].1 == v;
                    assert(m@.dom().contains(es@[q].0@) && m@[es@[q].0@] == v);
                    assert forall|k: Seq<char>| #[trigger] m@.dom().contains(k) implies m@[k] <= v by {
                        let j = choose|j: int| 0 <= j < m.entry_seq().len() && m.entry_seq()[j].0@ == k;
                        assert(m@[es@[j].0@] == es@[j].1);
                    }
                },
            }
        }
        best
    }
}

impl Default for AuthoritativeTip {
    /// The snapshot of no answers.
    fn default() -> (t: Self)
        ensures
            t.max_height is None,
            t.per_server_height@ == Map::<Seq<char>, u64>::empty(),
            t.per_server_error@ == Map::<Seq<char>, String>::empty(),
            t.responses_ok == 0,
            t.responses_total == 0,
            t.fetched_at_unix is None,
    {
        Self::empty()
    }
}

} // verus!
