//! Figures of the host for the admin health page, read from the text of
//! `/proc/cpuinfo`, `/proc/meminfo` and `/proc/self/limits`.

use vstd::prelude::*;

use crate::text::{
    chars_of, has_prefix, parse_u64, parse_u64_spec, split_by, split_chars, starts_with, views,
    CharClass,
};

verus! {

/// A line without the `\r` of a `\r\n` ending.
pub open spec fn strip_cr(p: Seq<char>) -> Seq<char> {
    if p.len() > 0 && p.last() == '\r' {
        p.drop_last()
    } else {
        p
    }
}

/// `str::lines`: the text cut at each `\n`, the `\r` before a `\n` dropped,
/// and no empty line after a final `\n`.
pub open spec fn lines_of(s: Seq<char>) -> Seq<Seq<char>> {
    let ps = split_by(s, CharClass::Newline);
    let n = ps.len() - 1;
    let ended = Seq::new(n as nat, |i: int| strip_cr(ps[i]));
    if ps[n].len() == 0 {
        ended
    } else {
        ended.push(ps[n])
    }
}

/// The pieces that are not empty, in order.
pub open spec fn nonempty(ps: Seq<Seq<char>>) -> Seq<Seq<char>>
    decreases ps.len(),
{
    if ps.len() == 0 {
        ps
    } else if ps.last().len() > 0 {
        nonempty(ps.drop_last()).push(ps.last())
    } else {
        nonempty(ps.drop_last())
    }
}

/// `str::split_whitespace`: the runs of characters that are not white space.
pub open spec fn words(s: Seq<char>) -> Seq<Seq<char>> {
    nonempty(split_by(s, CharClass::White))
}

/// How many of `ls` start with `p`.
pub open spec fn count_prefixed(ls: Seq<Seq<char>>, p: Seq<char>) -> nat
    decreases ls.len(),
{
    if ls.len() == 0 {
        0
    } else {
        count_prefixed(ls.drop_last(), p) + if starts_with(ls.last(), p) {
            1nat
        } else {
            0nat
        }
    }
}

/// The first of `ls` that starts with `p`.
pub open spec fn first_prefixed(ls: Seq<Seq<char>>, p: Seq<char>) -> Option<Seq<char>>
    decreases ls.len(),
{
    if ls.len() == 0 {
        None
    } else if starts_with(ls[0], p) {
        Some(ls[0])
    } else {
        first_prefixed(ls.drop_first(), p)
    }
}

/// The lines of a text.
pub fn text_lines(s: &Vec<char>) -> (ls: Vec<Vec<char>>)
    ensures
        views(ls@) == lines_of(s@),
{
    let pieces = split_chars(s, CharClass::Newline);
    proof {
        crate::text::lemma_split_nonempty(s@, CharClass::Newline);
    }
    let ghost ps = views(pieces@);
    let n = pieces.len() - 1;
    let mut out: Vec<Vec<char>> = Vec::new();
    let mut i: usize = 0;
    while i < n
        invariant
            n == pieces.len() - 1,
            i <= n,
            ps == views(pieces@),
            views(out@) =~= Seq::new(i as nat, |q: int| strip_cr(ps[q])),
        decreases n - i,
    {
        let p = &pieces[i];
        let len = p.len();
        let line = if len > 0 && p[len - 1] == '\r' {
            crate::text::copy_range(p, 0, len - 1)
        } else {
            crate::text::copy_range(p, 0, len)
        };
        assert(ps[i as int] == pieces@[i as int]@);
        assert(line@ =~= strip_cr(ps[i as int]));
        let ghost before = views(out@);
        out.push(line);
        assert(views(out@) =~= before.push(strip_cr(ps[i as int])));
        i = i + 1;
    }
    if pieces[n].len() > 0 {
        let last = crate::text::copy_range(&pieces[n], 0, pieces[n].len());
        assert(last@ =~= ps[n as int]);
        out.push(last);
    }
    out
}

/// The words of a text, as `str::split_whitespace` gives them.
pub fn text_words(s: &Vec<char>) -> (ws: Vec<Vec<char>>)
    ensures
        views(ws@) == words(s@),
{
    let pieces = split_chars(s, CharClass::White);
    let ghost ps = views(pieces@);
    let mut out: Vec<Vec<char>> = Vec::new();
    let mut i: usize = 0;
    assert(ps.take(0) =~= Seq::<Seq<char>>::empty());
    while i < pieces.len()
        invariant
            i <= pieces.len(),
            ps == views(pieces@),
            views(out@) == nonempty(ps.take(i as int)),
        decreases pieces.len() - i,
    {
        assert(ps.take(i + 1).drop_last() =~= ps.take(i as int));
        assert(ps.take(i + 1).last() == pieces@[i as int]@);
        if pieces[i].len() > 0 {
            let w = crate::text::copy_range(&pieces[i], 0, pieces[i].len());
            assert(w@ =~= pieces@[i as int]@);
            out.push(w);
            assert(views(out@) =~= nonempty(ps.take(i as int)).push(pieces@[i as int]@));
        }
        i = i + 1;
    }
    assert(ps.take(i as int) =~= ps);
    out
}

/// How many of `ls` start with `p`.
fn count_with_prefix(ls: &Vec<Vec<char>>, p: &Vec<char>) -> (n: usize)
    ensures
        n == count_prefixed(views(ls@), p@),
{
    let ghost vs = views(ls@);
    let mut n: usize = 0;
    let mut i: usize = 0;
    assert(vs.take(0) =~= Seq::<Seq<char>>::empty());
    while i < ls.len()
        invariant
            i <= ls.len(),
            vs == views(ls@),
            n == count_prefixed(vs.take(i as int), p@),
            n <= i,
        decreases ls.len() - i,
    {
        assert(vs.take(i + 1).drop_last() =~= vs.take(i as int));
        assert(vs.take(i + 1).last() == ls@[i as int]@);
        if has_prefix(&ls[i], p) {
            n = n + 1;
        }
        i = i + 1;
    }
    assert(vs.take(i as int) =~= vs);
    n
}

/// The index of the first of `ls` that starts with `p`, or `ls.len()`.
fn find_prefixed(ls: &Vec<Vec<char>>, p: &Vec<char>) -> (k: usize)
    ensures
        k <= ls@.len(),
        first_prefixed(views(ls@), p@) == if k < ls@.len() {
            Some(ls@[k as int]@)
        } else {
            None::<Seq<char>>
        },
{
    let ghost vs = views(ls@);
    let mut k: usize = 0;
    assert(vs.skip(0) =~= vs);
    while k < ls.len() && !has_prefix(&ls[k], p)
        invariant
            k <= ls.len(),
            vs == views(ls@),
            first_prefixed(vs, p@) == first_prefixed(vs.skip(k as int), p@),
        decreases ls.len() - k,
    {
        assert(vs.skip(k as int)[0] == ls@[k as int]@);
        assert(vs.skip(k as int).drop_first() =~= vs.skip(k + 1));
        k = k + 1;
    }
    if k < ls.len() {
        assert(vs.skip(k as int)[0] == ls@[k as int]@);
    } else {
        assert(vs.skip(k as int) =~= Seq::<Seq<char>>::empty());
    }
    k
}

/// Processors listed in `/proc/cpuinfo`: lines starting with `processor`,
/// at least one.
pub open spec fn spec_cpu_count(cpuinfo: Seq<char>) -> nat {
    let n = count_prefixed(lines_of(cpuinfo), "processor"@);
    if n > 0 {
        n
    } else {
        1
    }
}

/// The processor count of `/proc/cpuinfo`'s text.
pub fn cpu_count(cpuinfo: &str) -> (n: usize)
    ensures
        n == spec_cpu_count(cpuinfo@),
{
    let text = chars_of(cpuinfo);
    let lines = text_lines(&text);
    let key = chars_of("processor");
    let n = count_with_prefix(&lines, &key);
    if n > 0 {
        n
    } else {
        1
    }
}

/// The number that follows the first word of the first line starting with
/// `key`, read as a `u64`; 0 when there is no such line, no second word, or
/// it is not a number.
pub open spec fn spec_field_u64(text: Seq<char>, key: Seq<char>, word: int) -> u64 {
    match first_prefixed(lines_of(text), key) {
        Some(l) => if words(l).len() > word {
            match parse_u64_spec(words(l)[word], 10) {
                Some(v) => v,
                None => 0,
            }
        } else {
            0
        },
        None => 0,
    }
}

fn field_u64(text: &str, key: &str, word: usize) -> (v: u64)
    ensures
        v == spec_field_u64(text@, key@, word as int),
{
    let t = chars_of(text);
    let lines = text_lines(&t);
    let k = chars_of(key);
    let at = find_prefixed(&lines, &k);
    if at >= lines.len() {
        return 0;
    }
    let ws = text_words(&lines[at]);
    if ws.len() <= word {
        return 0;
    }
    match parse_u64(&ws[word], 10) {
        Some(v) => v,
        None => 0,
    }
}

/// A `/proc/meminfo` figure in kB (`MemTotal:`, `MemAvailable:`, ...): the
/// number after the key on its line, 0 when it cannot be read.
pub fn meminfo_kb(meminfo: &str, key: &str) -> (kb: u64)
    ensures
        kb == spec_field_u64(meminfo@, key@, 1),
{
    field_u64(meminfo, key, 1)
}

/// The soft limit of open files in `/proc/self/limits`: the fourth word of
/// the `Max open files` line, 0 when it cannot be read as a `usize`.
pub open spec fn spec_fd_soft_limit(limits: Seq<char>) -> nat {
    match first_prefixed(lines_of(limits), "Max open files"@) {
        Some(l) => if words(l).len() > 3 {
            match parse_u64_spec(words(l)[3], 10) {
                Some(v) => if v <= usize::MAX {
                    v as nat
                } else {
                    0
                },
                None => 0,
            }
        } else {
            0
        },
        None => 0,
    }
}

/// The open-files soft limit of `/proc/self/limits`'s text.
pub fn fd_soft_limit(limits: &str) -> (n: usize)
    ensures
        n == spec_fd_soft_limit(limits@),
{
    let t = chars_of(limits);
    let lines = text_lines(&t);
    let k = chars_of("Max open files");
    let at = find_prefixed(&lines, &k);
    if at >= lines.len() {
        return 0;
    }
    let ws = text_words(&lines[at]);
    if ws.len() <= 3 {
        return 0;
    }
    match parse_u64(&ws[3], 10) {
        Some(v) => if v <= usize::MAX as u64 {
            v as usize
        } else {
            0
        },
        None => 0,
    }
}

/// Memory in MB from `/proc/meminfo` figures in kB: (total, used, swap total,
/// swap used), used being total less available (not below zero).
pub fn memory_mb(mem_total_kb: u64, mem_available_kb: u64, swap_total_kb: u64, swap_free_kb: u64) -> (r: (
    u64,
    u64,
    u64,
    u64,
))
    ensures
        r.0 == mem_total_kb / 1024,
        r.1 == (if mem_total_kb >= mem_available_kb {
            mem_total_kb - mem_available_kb
        } else {
            0
        }) / 1024,
        r.2 == swap_total_kb / 1024,
        r.3 == (if swap_total_kb >= swap_free_kb {
            swap_total_kb - swap_free_kb
        } else {
            0
        }) / 1024,
{
    (
        mem_total_kb / 1024,
        mem_total_kb.saturating_sub(mem_available_kb) / 1024,
        swap_total_kb / 1024,
        swap_total_kb.saturating_sub(swap_free_kb) / 1024,
    )
}

} // verus!
