//! The network-miners page: which pool mined a block, read from its payout
//! address and from the self-tag in its coinbase, and how blocks are grouped.

use vstd::prelude::*;
use vstd::string::StringSliceAdditionalSpecFns;
use vstd::utf8::*;

use crate::strmap::StrMap;
use crate::text::{
    lemma_contains_lowercase, lemma_contains_trans, lemma_count_alpha_lowercase,
    lemma_lowercase_idempotent, lemma_split_dot_lowercase, lemma_split_pieces_within,
    lemma_trim_within, lower_char, alpha_count, char_is_alnum, char_is_alpha, chars_of, contains_seq, count_alpha, has_char, has_lit,
    is_alnum, is_alpha, is_lit, lowercase, opt_view, push_char, split_by, split_chars, string_of,
    to_lowercase, trim_by, trim_chars, views, CharClass,
};

verus! {

broadcast use vstd::utf8::encode_utf8_decode_utf8;

/// Query of the network page: which time window to show.
pub struct NetworkQuery {
    pub range: String,
}

/// The window shown when a query names none.
pub fn default_range() -> (r: String)
    ensures
        r@ == "1h"@,
{
    "1h".to_owned()
}

impl NetworkQuery {
    /// A query with the default window.
    pub fn with_default_range() -> (q: NetworkQuery)
        ensures
            q.range@ == "1h"@,
    {
        NetworkQuery { range: default_range() }
    }
}

/// The window a query names: `24h` and `1w` stand, anything else is `1h`.
pub open spec fn spec_normalize_range(raw: Seq<char>) -> Seq<char> {
    if raw == "24h"@ {
        "24h"@
    } else if raw == "1w"@ {
        "1w"@
    } else {
        "1h"@
    }
}

/// The window a query names: `24h` and `1w` stand, anything else is `1h`.
pub fn normalize_range(raw: &str) -> (r: &'static str)
    ensures
        r@ == spec_normalize_range(raw@),
{
    let c = chars_of(raw);
    if is_lit(&c, "24h") {
        "24h"
    } else if is_lit(&c, "1w") {
        "1w"
    } else {
        "1h"
    }
}

/// (window length in seconds, most blocks scanned) for a window.
pub open spec fn spec_range_params(range: Seq<char>) -> (i64, u64) {
    if range == "24h"@ {
        (86400, 1500)
    } else if range == "1w"@ {
        (604800, 3000)
    } else {
        (3600, 100)
    }
}

/// (window length in seconds, most blocks scanned) for a window.
pub fn range_params(range: &str) -> (r: (i64, u64))
    ensures
        r == spec_range_params(range@),
{
    let c = chars_of(range);
    if is_lit(&c, "24h") {
        (86400, 1500)
    } else if is_lit(&c, "1w") {
        (604800, 3000)
    } else {
        (3600, 100)
    }
}

/// How long, in milliseconds, cached figures for a window stay fresh.
pub open spec fn spec_cache_ttl_ms(range: Seq<char>) -> i64 {
    if range == "24h"@ {
        120_000
    } else if range == "1w"@ {
        300_000
    } else {
        60_000
    }
}

/// How long, in milliseconds, cached figures for a window stay fresh.
pub fn cache_ttl_ms(range: &str) -> (r: i64)
    ensures
        r == spec_cache_ttl_ms(range@),
{
    let c = chars_of(range);
    if is_lit(&c, "24h") {
        120_000
    } else if is_lit(&c, "1w") {
        300_000
    } else {
        60_000
    }
}

/// Whether figures cached at `stored_ms` are still fresh at `now_ms`.
pub fn cache_is_fresh(now_ms: i64, stored_ms: i64, ttl_ms: i64) -> (r: bool)
    requires
        i64::MIN <= now_ms - stored_ms <= i64::MAX,
    ensures
        r == (now_ms - stored_ms < ttl_ms),
{
    now_ms - stored_ms < ttl_ms
}

/// What the network page does with the cache entry of a window.
#[derive(Clone, Copy, PartialEq, Eq, Debug)]
pub enum CacheAction {
    /// The entry is fresh: a request serves it, the warm-up leaves it.
    Serve,
    /// There is no entry or it is stale: the figures are fetched again.
    Fetch,
}

/// The cache step for a window: serve the entry stored at `stored_ms` while
/// it is fresh at `now_ms`, else fetch.
pub fn cache_action(stored_ms: Option<i64>, now_ms: i64, ttl_ms: i64) -> (a: CacheAction)
    requires
        stored_ms matches Some(t) ==> i64::MIN <= now_ms - t <= i64::MAX,
    ensures
        a == if stored_ms matches Some(t) && now_ms - t < ttl_ms {
            CacheAction::Serve
        } else {
            CacheAction::Fetch
        },
{
    match stored_ms {
        Some(t) => if cache_is_fresh(now_ms, t, ttl_ms) {
            CacheAction::Serve
        } else {
            CacheAction::Fetch
        },
        None => CacheAction::Fetch,
    }
}

/// Whether the figures of a fetch go into the cache: a page request stores
/// what it answers, the empty figures of a failed fetch too; the warm-up
/// stores only a successful fetch and keeps the old entry otherwise.
pub fn store_after_fetch(fetch_ok: bool, warming: bool) -> (store: bool)
    ensures
        store == (fetch_ok || !warming),
{
    fetch_ok || !warming
}

/// How many blocks below the tip a window scans: the blocks the window
/// should hold at one per 75 s, with a fifth more for variance
/// (`secs / 75 * 1.2`, rounded down), at most the window's cap.
pub open spec fn spec_scan_count(range: Seq<char>) -> int {
    let secs = spec_range_params(range).0;
    let cap = spec_range_params(range).1;
    let estimated = secs * 2 / 125;
    if estimated < cap {
        estimated
    } else {
        cap as int
    }
}

/// The lowest height scanned: `scan_count` below the tip (not below zero),
/// and never below height 1.
pub open spec fn spec_scan_start(range: Seq<char>, tip: u64) -> int {
    let c = spec_scan_count(range);
    let s = if tip >= c {
        tip - c
    } else {
        0
    };
    if s < 1 {
        1
    } else {
        s
    }
}

/// The heights a window scans, newest first: from the tip down to the
/// window's lowest height (none when the tip is below height 1).
pub fn scan_heights(range: &str, tip: u64) -> (hs: Vec<u64>)
    ensures
        ({
            let start = spec_scan_start(range@, tip);
            &&& hs@.len() == (if tip >= start {
                tip - start + 1
            } else {
                0
            })
            &&& forall|i: int| 0 <= i < hs@.len() ==> #[trigger] hs@[i] == tip - i
        }),
{
    let (secs, cap) = range_params(range);
    let estimated: u64 = (secs as u64) * 2 / 125;
    let count: u64 = if estimated < cap {
        estimated
    } else {
        cap
    };
    let below: u64 = tip.saturating_sub(count);
    let start: u64 = if below < 1 {
        1
    } else {
        below
    };
    assert(start == spec_scan_start(range@, tip));
    let mut hs: Vec<u64> = Vec::new();
    if tip < start {
        return hs;
    }
    let mut h: u64 = tip;
    loop
        invariant_except_break
            start <= h <= tip,
            hs@.len() == tip - h,
            forall|i: int| 0 <= i < hs@.len() ==> #[trigger] hs@[i] == tip - i,
        ensures
            hs@.len() == tip - start + 1,
            forall|i: int| 0 <= i < hs@.len() ==> #[trigger] hs@[i] == tip - i,
        decreases h - start,
    {
        let ghost before = hs@;
        hs.push(h);
        assert forall|i: int| 0 <= i < hs@.len() implies #[trigger] hs@[i] == tip - i by {
            if i < before.len() {
                assert(hs@[i] == before[i]);
            }
        }
        if h == start {
            break;
        }
        h = h - 1;
    }
    hs
}

/// The oldest block time a window keeps: `window seconds` before `now`.
pub fn window_cutoff(range: &str, now_secs: i64) -> (t: i64)
    requires
        now_secs >= i64::MIN + 604800,
    ensures
        t == now_secs - spec_range_params(range@).0,
{
    let (secs, _cap) = range_params(range);
    now_secs - secs
}

/// Whether an address can be shortened without cutting a character apart:
/// its UTF-8 bytes have character boundaries 8 bytes in and 6 bytes before
/// the end whenever it is longer than 16 bytes.
pub open spec fn truncatable(addr: Seq<char>) -> bool {
    let b = encode_utf8(addr);
    b.len() > 16 ==> is_char_boundary(b, 8) && is_char_boundary(b, b.len() - 6)
}

/// An address of more than 16 bytes shows its first 8 bytes, `...` and its
/// last 6 bytes; a shorter one shows whole.
pub open spec fn spec_truncate_address(addr: Seq<char>) -> Seq<char> {
    let b = encode_utf8(addr);
    if b.len() > 16 {
        decode_utf8(b.take(8)) + seq!['.', '.', '.'] + decode_utf8(b.skip(b.len() - 6))
    } else {
        addr
    }
}

/// Shortens a long address for display.
pub fn truncate_address(addr: &str) -> (r: String)
    requires
        truncatable(addr@),
    ensures
        r@ == spec_truncate_address(addr@),
{
    let n = addr.as_bytes().len();
    if n > 16 {
        assert(addr.spec_bytes() == encode_utf8(addr@));
        assert(is_char_boundary(addr.spec_bytes(), (n - 6) as int));
        let (head, _rest) = addr.split_at(8);
        let (_front, tail) = addr.split_at(n - 6);
        assert(head@ == decode_utf8(head.spec_bytes()));
        assert(tail@ == decode_utf8(tail.spec_bytes()));
        assert(addr.spec_bytes().subrange(0, 8) =~= addr.spec_bytes().take(8));
        assert(addr.spec_bytes().subrange(n - 6, n as int) =~= addr.spec_bytes().skip(n - 6));
        let mut r = head.to_owned();
        push_char(&mut r, '.');
        push_char(&mut r, '.');
        push_char(&mut r, '.');
        r.append(tail);
        assert(r@ =~= spec_truncate_address(addr@));
        r
    } else {
        addr.to_owned()
    }
}

// ---------------------------------------------------------------------------
// Coinbase self-tags
// ---------------------------------------------------------------------------

/// A piece of coinbase text with enough letters to be a tag: at least two.
pub open spec fn tag_candidate(p: Seq<char>) -> bool {
    count_alpha(p) >= 2
}

/// Over the pieces in order (each trimmed of white space), the longest
/// candidate tag, the later one among equally long ones.
pub open spec fn longest_tag(ps: Seq<Seq<char>>) -> Option<Seq<char>>
    decreases ps.len(),
{
    if ps.len() == 0 {
        None
    } else {
        let best = longest_tag(ps.drop_last());
        let p = trim_by(ps.last(), CharClass::White);
        if tag_candidate(p) && (best is None || p.len() >= best.unwrap().len()) {
            Some(p)
        } else {
            best
        }
    }
}

/// The coinbase self-tag: of the runs of tag characters (ASCII letters and
/// digits, space, `-`, `_`, `:`), trimmed, that hold at least two letters,
/// the longest (the last of equally long ones).
pub open spec fn spec_coinbase_tag(text: Seq<char>) -> Option<Seq<char>> {
    longest_tag(split_by(text, CharClass::TagBreak))
}

/// A stable, human-readable tag from a coinbase's printable text, which tells
/// apart the shielded miners that share one placeholder address.
pub fn coinbase_tag(coinbase_text: &str) -> (r: Option<String>)
    ensures
        opt_view(r) == spec_coinbase_tag(coinbase_text@),
{
    let chars = chars_of(coinbase_text);
    let pieces = split_chars(&chars, CharClass::TagBreak);
    let ghost ps = views(pieces@);
    let mut best: Option<Vec<char>> = None;
    let mut i: usize = 0;
    assert(ps.take(0) =~= Seq::<Seq<char>>::empty());
    while i < pieces.len()
        invariant
            i <= pieces.len(),
            ps == views(pieces@),
            match best {
                Some(b) => longest_tag(ps.take(i as int)) == Some(b@),
                None => longest_tag(ps.take(i as int)) is None,
            },
        decreases pieces.len() - i,
    {
        assert(ps.take(i + 1).drop_last() =~= ps.take(i as int));
        assert(ps.take(i + 1).last() == pieces@[i as int]@);
        let t = trim_chars(&pieces[i], CharClass::White);
        if alpha_count(&t) >= 2 {
            let replace = match &best {
                None => true,
                Some(b) => t.len() >= b.len(),
            };
            if replace {
                best = Some(t);
            }
        }
        i = i + 1;
    }
    assert(ps.take(pieces.len() as int) =~= ps);
    match best {
        Some(b) => Some(string_of(&b)),
        None => None,
    }
}

/// A domain label: not empty, ASCII letters, digits and `-` only.
pub open spec fn label_ok(l: Seq<char>) -> bool {
    l.len() > 0 && forall|i: int| 0 <= i < l.len() ==> (is_alnum(#[trigger] l[i]) || l[i] == '-')
}

/// Every character is an ASCII letter.
pub open spec fn all_alpha(s: Seq<char>) -> bool {
    forall|i: int| 0 <= i < s.len() ==> is_alpha(#[trigger] s[i])
}

/// The dot-separated labels of a token form a domain: none is empty, each is
/// made of ASCII letters, digits and `-`, the last (the top-level domain) is
/// 2 to 6 letters, and the one before it is at least 3 long with 2 letters.
pub open spec fn domain_shape(t: Seq<char>) -> bool {
    let labels = split_by(t, CharClass::Dot);
    &&& labels.len() >= 2
    &&& forall|i: int| 0 <= i < labels.len() ==> #[trigger] label_ok(labels[i])
    &&& 2 <= labels.last().len() <= 6
    &&& all_alpha(labels.last())
    &&& labels[labels.len() - 2].len() >= 3
    &&& count_alpha(labels[labels.len() - 2]) >= 2
}

/// A token that reads as a domain.
pub open spec fn domain_candidate(t: Seq<char>) -> bool {
    t.len() >= 6 && t.contains('.') && domain_shape(t)
}

/// Over the pieces in order (each trimmed of `.` and `-`), the first that is a
/// domain, in lowercase.
pub open spec fn first_domain(ps: Seq<Seq<char>>) -> Option<Seq<char>>
    decreases ps.len(),
{
    if ps.len() == 0 {
        None
    } else {
        match first_domain(ps.drop_last()) {
            Some(d) => Some(d),
            None => {
                let t = trim_by(ps.last(), CharClass::DotOrDash);
                if domain_candidate(t) {
                    Some(lowercase(t))
                } else {
                    None
                }
            },
        }
    }
}

/// The first domain-like token of a coinbase's text, in lowercase.
pub open spec fn spec_coinbase_domain(text: Seq<char>) -> Option<Seq<char>> {
    first_domain(split_by(text, CharClass::DomainBreak))
}

proof fn lemma_first_domain_found(ps: Seq<Seq<char>>, k: int)
    requires
        0 <= k <= ps.len(),
        first_domain(ps.take(k)) is Some,
    ensures
        first_domain(ps) == first_domain(ps.take(k)),
    decreases ps.len() - k,
{
    if k == ps.len() {
        assert(ps.take(k) =~= ps);
    } else {
        assert(ps.take(k + 1).drop_last() =~= ps.take(k));
        lemma_first_domain_found(ps, k + 1);
    }
}

proof fn lemma_first_domain_is(ps: Seq<Seq<char>>)
    ensures
        first_domain(ps) is None <==> forall|k: int|
            0 <= k < ps.len() ==> !domain_candidate(trim_by(#[trigger] ps[k], CharClass::DotOrDash)),
        first_domain(ps) matches Some(d) ==> exists|k: int|
            0 <= k < ps.len() && domain_candidate(trim_by(#[trigger] ps[k], CharClass::DotOrDash))
                && d == lowercase(trim_by(ps[k], CharClass::DotOrDash)),
    decreases ps.len(),
{
    if ps.len() > 0 {
        let init = ps.drop_last();
        lemma_first_domain_is(init);
        assert forall|k: int| 0 <= k < init.len() implies #[trigger] init[k] == ps[k] by {}
        let last = ps.len() - 1;
        assert(ps[last] == ps.last());
        if first_domain(init) is None {
            if first_domain(ps) is None {
                assert forall|k: int| 0 <= k < ps.len() implies !domain_candidate(
                    trim_by(#[trigger] ps[k], CharClass::DotOrDash),
                ) by {
                    if k < last {
                        assert(init[k] == ps[k]);
                    }
                }
            }
        } else {
            let d = first_domain(init).unwrap();
            let k = choose|k: int|
                0 <= k < init.len() && domain_candidate(trim_by(#[trigger] init[k], CharClass::DotOrDash))
                    && d == lowercase(trim_by(init[k], CharClass::DotOrDash));
            assert(init[k] == ps[k]);
        }
    }
}

/// Lowering a domain-shaped token keeps its shape.
proof fn lemma_domain_shape_lowercase(t: Seq<char>)
    requires
        domain_shape(t),
    ensures
        domain_shape(lowercase(t)),
{
    let f = |p: Seq<char>| lowercase(p);
    lemma_split_dot_lowercase(t);
    let ls = split_by(t, CharClass::Dot);
    let ms = split_by(lowercase(t), CharClass::Dot);
    assert(ms == ls.map_values(f));
    assert forall|i: int| 0 <= i < ms.len() implies #[trigger] label_ok(ms[i]) by {
        assert(ms[i] == lowercase(ls[i]));
        assert(label_ok(ls[i]));
        assert forall|j: int| 0 <= j < ms[i].len() implies (is_alnum(#[trigger] ms[i][j]) || ms[i][j] == '-') by {
            assert(ms[i][j] == lower_char(ls[i][j]));
            assert(is_alnum(ls[i][j]) || ls[i][j] == '-');
        }
    }
    let n = ls.len();
    assert(ms.last() == lowercase(ls.last()));
    assert forall|j: int| 0 <= j < ms.last().len() implies is_alpha(#[trigger] ms.last()[j]) by {
        assert(ms.last()[j] == lower_char(ls.last()[j]));
        assert(is_alpha(ls.last()[j]));
    }
    assert(ms[n - 2] == lowercase(ls[n - 2]));
    lemma_count_alpha_lowercase(ls[n - 2]);
}

/// A domain read from a coinbase is in lower case, at least six long, occurs
/// in the lowered text, and has a domain's shape (labels of ASCII letters,
/// digits and `-`; a top-level label of 2 to 6 letters; a label before it of
/// at least 3 with 2 letters). There is none exactly when no token of the
/// text reads as a domain.
pub proof fn law_coinbase_domain_shape(text: Seq<char>)
    ensures
        spec_coinbase_domain(text) is None <==> forall|k: int|
            0 <= k < split_by(text, CharClass::DomainBreak).len() ==> !domain_candidate(
                trim_by(#[trigger] split_by(text, CharClass::DomainBreak)[k], CharClass::DotOrDash),
            ),
        spec_coinbase_domain(text) matches Some(d) ==> {
            &&& lowercase(d) == d
            &&& d.len() >= 6
            &&& contains_seq(lowercase(text), d)
            &&& domain_shape(d)
        },
{
    let ps = split_by(text, CharClass::DomainBreak);
    lemma_first_domain_is(ps);
    if spec_coinbase_domain(text) is Some {
        let d = spec_coinbase_domain(text).unwrap();
        let k = choose|k: int|
            0 <= k < ps.len() && domain_candidate(trim_by(#[trigger] ps[k], CharClass::DotOrDash)) && d
                == lowercase(trim_by(ps[k], CharClass::DotOrDash));
        let t = trim_by(ps[k], CharClass::DotOrDash);
        lemma_lowercase_idempotent(t);
        lemma_split_pieces_within(text, CharClass::DomainBreak);
        lemma_trim_within(ps[k], CharClass::DotOrDash);
        lemma_contains_trans(text, ps[k], t);
        lemma_contains_lowercase(text, t);
        lemma_domain_shape_lowercase(t);
    }
}

fn label_is_ok(l: &Vec<char>) -> (r: bool)
    ensures
        r == label_ok(l@),
{
    if l.len() == 0 {
        return false;
    }
    let mut i: usize = 0;
    while i < l.len()
        invariant
            i <= l.len(),
            forall|j: int| 0 <= j < i ==> (is_alnum(#[trigger] l@[j]) || l@[j] == '-'),
        decreases l.len() - i,
    {
        if !(char_is_alnum(l[i]) || l[i] == '-') {
            return false;
        }
        i = i + 1;
    }
    true
}

fn is_all_alpha(s: &Vec<char>) -> (r: bool)
    ensures
        r == all_alpha(s@),
{
    let mut i: usize = 0;
    while i < s.len()
        invariant
            i <= s.len(),
            forall|j: int| 0 <= j < i ==> is_alpha(#[trigger] s@[j]),
        decreases s.len() - i,
    {
        if !char_is_alpha(s[i]) {
            return false;
        }
        i = i + 1;
    }
    true
}

fn is_domain_token(t: &Vec<char>) -> (r: bool)
    ensures
        r == domain_candidate(t@),
{
    if t.len() < 6 || !has_char(t, '.') {
        return false;
    }
    let labels = split_chars(t, CharClass::Dot);
    let ghost ls = views(labels@);
    let n = labels.len();
    if n < 2 {
        return false;
    }
    let mut i: usize = 0;
    while i < n
        invariant
            i <= n,
            n == labels.len(),
            ls == views(labels@),
            ls == split_by(t@, CharClass::Dot),
            forall|j: int| 0 <= j < i ==> #[trigger] label_ok(ls[j]),
        decreases n - i,
    {
        if !label_is_ok(&labels[i]) {
            assert(!label_ok(ls[i as int]));
            assert(split_by(t@, CharClass::Dot)[i as int] == ls[i as int]);
            assert(!domain_shape(t@));
            return false;
        }
        i = i + 1;
    }
    let tld = &labels[n - 1];
    let sld = &labels[n - 2];
    assert(ls.last() == tld@);
    assert(ls[n - 2] == sld@);
    tld.len() >= 2 && tld.len() <= 6 && is_all_alpha(tld) && sld.len() >= 3 && alpha_count(sld) >= 2
}

/// A domain-like token in a coinbase's printable text (e.g. `sluicey.xyz`),
/// used to label a self-tagged pool that has no brand entry.
pub fn coinbase_domain(coinbase_text: &str) -> (r: Option<String>)
    ensures
        opt_view(r) == spec_coinbase_domain(coinbase_text@),
{
    let chars = chars_of(coinbase_text);
    let pieces = split_chars(&chars, CharClass::DomainBreak);
    let ghost ps = views(pieces@);
    let mut i: usize = 0;
    assert(ps.take(0) =~= Seq::<Seq<char>>::empty());
    while i < pieces.len()
        invariant
            i <= pieces.len(),
            ps == views(pieces@),
            ps == split_by(coinbase_text@, CharClass::DomainBreak),
            first_domain(ps.take(i as int)) is None,
        decreases pieces.len() - i,
    {
        assert(ps.take(i + 1).drop_last() =~= ps.take(i as int));
        assert(ps.take(i + 1).last() == pieces@[i as int]@);
        let t = trim_chars(&pieces[i], CharClass::DotOrDash);
        if is_domain_token(&t) {
            let low = to_lowercase(&t);
            proof {
                let pre = ps.take(i + 1);
                assert(pre.last() == ps[i as int]);
                assert(ps[i as int] == pieces@[i as int]@);
                assert(t@ == trim_by(pre.last(), CharClass::DotOrDash));
                assert(domain_candidate(t@));
                assert(first_domain(pre.drop_last()) is None);
                assert(first_domain(pre) == Some(low@));
                lemma_first_domain_found(ps, i + 1);
            }
            return Some(string_of(&low));
        }
        i = i + 1;
    }
    assert(ps.take(pieces.len() as int) =~= ps);
    None
}

// ---------------------------------------------------------------------------
// Pool identification
// ---------------------------------------------------------------------------

/// Pools known by their payout address.
pub open spec fn known_pool_address(a: Seq<char>) -> Option<Seq<char>> {
    if a == "t1K79TgQbqu74d6rBmsMu2oFEXEwAmdYiT7"@ || a == "t1ZVi2YGk98tEGYcNpXYnJFWCoLG2oYwv3J"@
        || a == "t1MKn34KBa8Xh4g8qU8psibBXvURafphVn7"@ {
        Some("ViaBTC"@)
    } else if a == "t1at7nVNsv6taLRrNRvnQdtfLNRDfsGc3Ak"@ || a == "t1SEgZvXCu3ceE42qrq5pCeSq7HbLjX8NJv"@ {
        Some("ViaBTC-Solo"@)
    } else if a == "t1PEp2GJLSdhDfCKqc2J211WKDUS1NfoQNy"@ {
        Some("F2Pool"@)
    } else if a == "t1bnxtY7aLCjWx9Ru1YcGwRWch3eEWUFK7u"@ || a == "t1fu6KgYtHEXk2ZhTpM1XD7jbnSmW6wokDM"@ {
        Some("2Miners"@)
    } else if a == "t1LRTUjrLE2RHsS75cjCrxB7xaLTwaVkwao"@ || a == "t1Pxv9u2jWySHJPFpKimYMAtEbdHEvuYdS2"@ {
        Some("2Miners-Solo"@)
    } else if a == "t1L2b66MXbgpVMXDfUa94GCBFAN4dCxGohM"@ {
        Some("AntPool"@)
    } else if a == "t1e6hceYHkzCbwcwGZzKeMfXXW7x7gr19Cw"@ {
        Some("Kryptex"@)
    } else if a == "t1SqwRAAdSig6dE4EBPLonAait219VmkUjP"@ {
        Some("Foundry"@)
    } else if a == "t3cFfPt1Bcvgez9ZbMBFWeZsskxTkPzGCow"@ {
        Some("NiceHash"@)
    } else if a == "t1cQA9Rxn31tqHcgZzydrpDjgsQGmjpBgpB"@ {
        Some("Mining-Dutch"@)
    } else {
        None
    }
}

/// Pools known by the self-tag in their coinbase: a brand when one is named,
/// else the first domain in the text.
pub open spec fn pool_from_coinbase(t: Seq<char>) -> Option<Seq<char>> {
    if contains_seq(t, "Luxor"@) || contains_seq(t, "LuxOS"@) {
        Some("Luxor"@)
    } else if contains_seq(t, "2Miners"@) {
        Some("2Miners"@)
    } else if contains_seq(t, "Foundry"@) || contains_seq(t, "/ZEC Pool X/"@) {
        Some("Foundry"@)
    } else if contains_seq(t, "/NiceHash/"@) {
        Some("NiceHash"@)
    } else if contains_seq(t, "F2Pool"@) || contains_seq(t, "f2pool"@) {
        Some("F2Pool"@)
    } else if contains_seq(lowercase(t), "sluicey"@) {
        Some("Sluicey"@)
    } else {
        spec_coinbase_domain(t)
    }
}

/// An operator's label for the address wins; then the address table; then the
/// coinbase's self-tag.
pub open spec fn spec_identify_pool(
    addr: Seq<char>,
    text: Seq<char>,
    overrides: Map<Seq<char>, String>,
) -> Option<Seq<char>> {
    if overrides.dom().contains(addr) {
        Some(overrides[addr]@)
    } else {
        match known_pool_address(addr) {
            Some(n) => Some(n),
            None => pool_from_coinbase(text),
        }
    }
}

/// An operator's label for an address wins over the address table and over
/// whatever the coinbase says.
pub proof fn law_override_wins(addr: Seq<char>, text: Seq<char>, overrides: Map<Seq<char>, String>)
    requires
        overrides.dom().contains(addr),
    ensures
        spec_identify_pool(addr, text, overrides) == Some(overrides[addr]@),
{
}

/// An address in the table of known pool addresses that the operator has not
/// labelled is named by the table, whatever its coinbase says: the coinbase
/// is read only for addresses the table does not know, so a pool's solo and
/// shared payout addresses keep their own names though both sign alike.
pub proof fn law_known_address_wins(
    addr: Seq<char>,
    text: Seq<char>,
    other_text: Seq<char>,
    overrides: Map<Seq<char>, String>,
)
    requires
        !overrides.dom().contains(addr),
        known_pool_address(addr) is Some,
    ensures
        spec_identify_pool(addr, text, overrides) == known_pool_address(addr),
        spec_identify_pool(addr, text, overrides) == spec_identify_pool(addr, other_text, overrides),
{
}

fn known_pool(a: &Vec<char>) -> (r: Option<String>)
    ensures
        opt_view(r) == known_pool_address(a@),
{
    if is_lit(a, "t1K79TgQbqu74d6rBmsMu2oFEXEwAmdYiT7") || is_lit(a, "t1ZVi2YGk98tEGYcNpXYnJFWCoLG2oYwv3J")
        || is_lit(a, "t1MKn34KBa8Xh4g8qU8psibBXvURafphVn7") {
        Some("ViaBTC".to_owned())
    } else if is_lit(a, "t1at7nVNsv6taLRrNRvnQdtfLNRDfsGc3Ak") || is_lit(
        a,
        "t1SEgZvXCu3ceE42qrq5pCeSq7HbLjX8NJv",
    ) {
        Some("ViaBTC-Solo".to_owned())
    } else if is_lit(a, "t1PEp2GJLSdhDfCKqc2J211WKDUS1NfoQNy") {
        Some("F2Pool".to_owned())
    } else if is_lit(a, "t1bnxtY7aLCjWx9Ru1YcGwRWch3eEWUFK7u") || is_lit(
        a,
        "t1fu6KgYtHEXk2ZhTpM1XD7jbnSmW6wokDM",
    ) {
        Some("2Miners".to_owned())
    } else if is_lit(a, "t1LRTUjrLE2RHsS75cjCrxB7xaLTwaVkwao") || is_lit(
        a,
        "t1Pxv9u2jWySHJPFpKimYMAtEbdHEvuYdS2",
    ) {
        Some("2Miners-Solo".to_owned())
    } else if is_lit(a, "t1L2b66MXbgpVMXDfUa94GCBFAN4dCxGohM") {
        Some("AntPool".to_owned())
    } else if is_lit(a, "t1e6hceYHkzCbwcwGZzKeMfXXW7x7gr19Cw") {
        Some("Kryptex".to_owned())
    } else if is_lit(a, "t1SqwRAAdSig6dE4EBPLonAait219VmkUjP") {
        Some("Foundry".to_owned())
    } else if is_lit(a, "t3cFfPt1Bcvgez9ZbMBFWeZsskxTkPzGCow") {
        Some("NiceHash".to_owned())
    } else if is_lit(a, "t1cQA9Rxn31tqHcgZzydrpDjgsQGmjpBgpB") {
        Some("Mining-Dutch".to_owned())
    } else {
        None
    }
}

fn coinbase_pool(coinbase_text: &str) -> (r: Option<String>)
    ensures
        opt_view(r) == pool_from_coinbase(coinbase_text@),
{
    let t = chars_of(coinbase_text);
    if has_lit(&t, "Luxor") || has_lit(&t, "LuxOS") {
        Some("Luxor".to_owned())
    } else if has_lit(&t, "2Miners") {
        Some("2Miners".to_owned())
    } else if has_lit(&t, "Foundry") || has_lit(&t, "/ZEC Pool X/") {
        Some("Foundry".to_owned())
    } else if has_lit(&t, "/NiceHash/") {
        Some("NiceHash".to_owned())
    } else if has_lit(&t, "F2Pool") || has_lit(&t, "f2pool") {
        Some("F2Pool".to_owned())
    } else if has_lit(&to_lowercase(&t), "sluicey") {
        Some("Sluicey".to_owned())
    } else {
        coinbase_domain(coinbase_text)
    }
}

/// The pool that mined a block: an operator-defined label for its miner
/// address, else the built-in address table, else the self-tag in its
/// coinbase text (a known brand, else a domain it signs with).
pub fn identify_pool(miner_address: &str, coinbase_text: &str, overrides: &StrMap<String>) -> (r:
    Option<String>)
    requires
    ensures
        opt_view(r) == spec_identify_pool(miner_address@, coinbase_text@, overrides@),
{
    if let Some(name) = overrides.get(miner_address) {
        return Some(name.clone());
    }
    let a = chars_of(miner_address);
    match known_pool(&a) {
        Some(n) => Some(n),
        None => coinbase_pool(coinbase_text),
    }
}

/// Detects zebrad by the zebra emoji bytes (`f09fa693`) in coinbase hex.
pub fn is_zebrad_block(coinbase_hex: &str) -> (r: bool)
    ensures
        r == contains_seq(coinbase_hex@, "f09fa693"@),
{
    has_lit(&chars_of(coinbase_hex), "f09fa693")
}

/// Detects Zakura by the cherry-blossom emoji bytes (`f09f8cb8`) in coinbase hex.
pub fn is_zakura_block(coinbase_hex: &str) -> (r: bool)
    ensures
        r == contains_seq(coinbase_hex@, "f09f8cb8"@),
{
    has_lit(&chars_of(coinbase_hex), "f09f8cb8")
}

} // verus!
