//! Character-level building blocks shared by the parsers of this crate:
//! character classes, splitting and trimming as `str` does them, substring
//! search, and decimal / hexadecimal numerals.

use vstd::prelude::*;

verus! {

// ---------------------------------------------------------------------------
// Character classes
// ---------------------------------------------------------------------------

/// An ASCII decimal digit.
pub open spec fn is_digit(c: char) -> bool {
    '0' <= c <= '9'
}

/// An ASCII letter.
pub open spec fn is_alpha(c: char) -> bool {
    ('a' <= c <= 'z') || ('A' <= c <= 'Z')
}

/// An ASCII letter or digit.
pub open spec fn is_alnum(c: char) -> bool {
    is_digit(c) || is_alpha(c)
}

/// Unicode `White_Space`, the set that `char::is_whitespace` and `str::trim` use.
pub open spec fn is_white(c: char) -> bool {
    ||| ('\u{9}' <= c <= '\u{d}')
    ||| c == ' '
    ||| c == '\u{85}'
    ||| c == '\u{a0}'
    ||| c == '\u{1680}'
    ||| ('\u{2000}' <= c <= '\u{200a}')
    ||| c == '\u{2028}'
    ||| c == '\u{2029}'
    ||| c == '\u{202f}'
    ||| c == '\u{205f}'
    ||| c == '\u{3000}'
}

/// The Unicode general category `Cc`, which `char::is_control` tests.
pub open spec fn is_control(c: char) -> bool {
    c <= '\u{1f}' || ('\u{7f}' <= c <= '\u{9f}')
}

/// The ASCII lowercase of a character; others stay.
pub open spec fn lower_char(c: char) -> char {
    if 'A' <= c <= 'Z' {
        ((c as u32) + 32) as char
    } else {
        c
    }
}

/// The sets of characters at which the parsers of this crate cut or trim text.
#[derive(Clone, Copy, PartialEq, Eq, Debug)]
pub enum CharClass {
    /// Anything but an ASCII alphanumeric, a space, `-`, `_` or `:`.
    TagBreak,
    /// Anything but an ASCII alphanumeric, `.` or `-`.
    DomainBreak,
    /// `.` alone.
    Dot,
    /// `.` or `-`.
    DotOrDash,
    /// `;` alone.
    Semicolon,
    /// `\n` alone.
    Newline,
    /// Unicode white space.
    White,
}

/// Whether `c` belongs to the class `k`.
pub open spec fn in_class(k: CharClass, c: char) -> bool {
    match k {
        CharClass::TagBreak => !(is_alnum(c) || c == ' ' || c == '-' || c == '_' || c == ':'),
        CharClass::DomainBreak => !(is_alnum(c) || c == '.' || c == '-'),
        CharClass::Dot => c == '.',
        CharClass::DotOrDash => c == '.' || c == '-',
        CharClass::Semicolon => c == ';',
        CharClass::Newline => c == '\n',
        CharClass::White => is_white(c),
    }
}

/// `char::is_ascii_digit`.
pub fn char_is_digit(c: char) -> (r: bool)
    ensures
        r == is_digit(c),
{
    '0' <= c && c <= '9'
}

/// `char::is_ascii_alphabetic`.
pub fn char_is_alpha(c: char) -> (r: bool)
    ensures
        r == is_alpha(c),
{
    ('a' <= c && c <= 'z') || ('A' <= c && c <= 'Z')
}

/// `char::is_ascii_alphanumeric`.
pub fn char_is_alnum(c: char) -> (r: bool)
    ensures
        r == is_alnum(c),
{
    char_is_digit(c) || char_is_alpha(c)
}

/// `char::is_whitespace`.
pub fn char_is_white(c: char) -> (r: bool)
    ensures
        r == is_white(c),
{
    ('\u{9}' <= c && c <= '\u{d}') || c == ' ' || c == '\u{85}' || c == '\u{a0}' || c
        == '\u{1680}' || ('\u{2000}' <= c && c <= '\u{200a}') || c == '\u{2028}' || c
        == '\u{2029}' || c == '\u{202f}' || c == '\u{205f}' || c == '\u{3000}'
}

/// `char::is_control`.
pub fn char_is_control(c: char) -> (r: bool)
    ensures
        r == is_control(c),
{
    c <= '\u{1f}' || ('\u{7f}' <= c && c <= '\u{9f}')
}

/// `char::to_ascii_lowercase`.
pub fn char_to_lower(c: char) -> (r: char)
    ensures
        r == lower_char(c),
{
    if 'A' <= c && c <= 'Z' {
        let u: u32 = (c as u32) + 32;
        // 'a'..='z' are valid scalar values
        assert(0x61 <= u <= 0x7a);
        char_from_ascii_code(u)
    } else {
        c
    }
}

fn char_from_ascii_code(u: u32) -> (c: char)
    requires
        u < 0x80,
    ensures
        c == u as char,
{
    let b: u8 = u as u8;
    b as char
}

/// Whether `c` belongs to the class `k`.
pub fn char_in_class(k: CharClass, c: char) -> (r: bool)
    ensures
        r == in_class(k, c),
{
    match k {
        CharClass::TagBreak => !(char_is_alnum(c) || c == ' ' || c == '-' || c == '_' || c == ':'),
        CharClass::DomainBreak => !(char_is_alnum(c) || c == '.' || c == '-'),
        CharClass::Dot => c == '.',
        CharClass::DotOrDash => c == '.' || c == '-',
        CharClass::Semicolon => c == ';',
        CharClass::Newline => c == '\n',
        CharClass::White => char_is_white(c),
    }
}

// ---------------------------------------------------------------------------
// Sequences of characters
// ---------------------------------------------------------------------------

/// The texts of a sequence of character vectors.
pub open spec fn views(ps: Seq<Vec<char>>) -> Seq<Seq<char>> {
    ps.map_values(|p: Vec<char>| p@)
}

/// `s.split(pred)` of `str`: the pieces between the characters of class `k`,
/// empty pieces included, so there is always one more piece than cuts.
pub open spec fn split_by(s: Seq<char>, k: CharClass) -> Seq<Seq<char>>
    decreases s.len(),
{
    if s.len() == 0 {
        seq![Seq::<char>::empty()]
    } else {
        let init = split_by(s.drop_last(), k);
        if in_class(k, s.last()) {
            init.push(Seq::<char>::empty())
        } else {
            init.update(init.len() - 1, init.last().push(s.last()))
        }
    }
}

/// A split has at least one piece.
pub proof fn lemma_split_nonempty(s: Seq<char>, k: CharClass)
    ensures
        split_by(s, k).len() >= 1,
    decreases s.len(),
{
    if s.len() > 0 {
        lemma_split_nonempty(s.drop_last(), k);
    }
}

/// No piece of a split holds a character of the class it was cut at.
pub proof fn lemma_split_pieces_avoid(s: Seq<char>, k: CharClass)
    ensures
        forall|i: int, j: int|
            0 <= i < split_by(s, k).len() && 0 <= j < split_by(s, k)[i].len() ==> !in_class(
                k,
                #[trigger] split_by(s, k)[i][j],
            ),
    decreases s.len(),
{
    if s.len() > 0 {
        lemma_split_nonempty(s.drop_last(), k);
        lemma_split_pieces_avoid(s.drop_last(), k);
        let init = split_by(s.drop_last(), k);
        if !in_class(k, s.last()) {
            assert forall|i: int, j: int|
                0 <= i < split_by(s, k).len() && 0 <= j < split_by(
                    s,
                    k,
                )[i].len() implies !in_class(k, #[trigger] split_by(s, k)[i][j]) by {
                if i == init.len() - 1 {
                    if j < init.last().len() {
                        assert(split_by(s, k)[i][j] == init[i][j]);
                    }
                } else {
                    assert(split_by(s, k)[i] == init[i]);
                }
            }
        } else {
            assert forall|i: int, j: int|
                0 <= i < split_by(s, k).len() && 0 <= j < split_by(
                    s,
                    k,
                )[i].len() implies !in_class(k, #[trigger] split_by(s, k)[i][j]) by {
                assert(split_by(s, k)[i] == init[i]);
            }
        }
    }
}

/// Splits `s` at every character of class `k`, as `str::split` does.
pub fn split_chars(s: &Vec<char>, k: CharClass) -> (pieces: Vec<Vec<char>>)
    ensures
        views(pieces@) == split_by(s@, k),
{
    let mut done: Vec<Vec<char>> = Vec::new();
    let mut cur: Vec<char> = Vec::new();
    let mut i: usize = 0;
    assert(s@.take(0) =~= Seq::<char>::empty());
    assert(views(done@).push(cur@) =~= split_by(s@.take(0), k));
    while i < s.len()
        invariant
            i <= s.len(),
            views(done@).push(cur@) == split_by(s@.take(i as int), k),
        decreases s.len() - i,
    {
        let c = s[i];
        let ghost before = views(done@);
        assert(s@.take(i + 1).drop_last() =~= s@.take(i as int));
        assert(s@.take(i + 1).last() == c);
        if char_in_class(k, c) {
            done.push(cur);
            cur = Vec::new();
            assert(views(done@) =~= before.push(split_by(s@.take(i as int), k).last()));
            assert(views(done@).push(cur@) =~= split_by(s@.take(i as int), k).push(
                Seq::<char>::empty(),
            ));
        } else {
            cur.push(c);
            assert(views(done@).push(cur@) =~= split_by(s@.take(i as int), k).update(
                split_by(s@.take(i as int), k).len() - 1,
                split_by(s@.take(i as int), k).last().push(c),
            ));
        }
        i = i + 1;
    }
    assert(s@.take(s.len() as int) =~= s@);
    done.push(cur);
    done
}

/// Drops leading characters of class `k`.
pub open spec fn strip_front(s: Seq<char>, k: CharClass) -> Seq<char>
    decreases s.len(),
{
    if s.len() > 0 && in_class(k, s[0]) {
        strip_front(s.drop_first(), k)
    } else {
        s
    }
}

/// Drops trailing characters of class `k`.
pub open spec fn strip_back(s: Seq<char>, k: CharClass) -> Seq<char>
    decreases s.len(),
{
    if s.len() > 0 && in_class(k, s.last()) {
        strip_back(s.drop_last(), k)
    } else {
        s
    }
}

/// `str::trim_matches` with the class `k` (and `str::trim` for white space).
pub open spec fn trim_by(s: Seq<char>, k: CharClass) -> Seq<char> {
    strip_back(strip_front(s, k), k)
}

proof fn lemma_strip_front_at(s: Seq<char>, k: CharClass, i: int)
    requires
        0 <= i <= s.len(),
        forall|j: int| 0 <= j < i ==> in_class(k, #[trigger] s[j]),
        i == s.len() || !in_class(k, s[i]),
    ensures
        strip_front(s, k) == s.subrange(i, s.len() as int),
    decreases i,
{
    if i == 0 {
        assert(s.subrange(0, s.len() as int) =~= s);
    } else {
        let t = s.drop_first();
        assert forall|j: int| 0 <= j < i - 1 implies in_class(k, #[trigger] t[j]) by {
            assert(t[j] == s[j + 1]);
        }
        lemma_strip_front_at(t, k, i - 1);
        assert(t.subrange(i - 1, t.len() as int) =~= s.subrange(i, s.len() as int));
    }
}

proof fn lemma_strip_back_at(s: Seq<char>, k: CharClass, e: int)
    requires
        0 <= e <= s.len(),
        forall|j: int| e <= j < s.len() ==> in_class(k, #[trigger] s[j]),
        e == 0 || !in_class(k, s[e - 1]),
    ensures
        strip_back(s, k) == s.subrange(0, e),
    decreases s.len() - e,
{
    if e == s.len() {
        assert(s.subrange(0, e) =~= s);
    } else {
        let t = s.drop_last();
        lemma_strip_back_at(t, k, e);
        assert(t.subrange(0, e) =~= s.subrange(0, e));
    }
}

/// What the front strip leaves is a suffix of the text.
proof fn lemma_strip_front_suffix(s: Seq<char>, k: CharClass)
    ensures
        strip_front(s, k).len() <= s.len(),
        strip_front(s, k) == s.skip(s.len() - strip_front(s, k).len()),
    decreases s.len(),
{
    if s.len() > 0 && in_class(k, s[0]) {
        let t = s.drop_first();
        lemma_strip_front_suffix(t, k);
        let r = strip_front(t, k);
        assert(t.skip(t.len() - r.len()) =~= s.skip(s.len() - r.len()));
    } else {
        assert(s.skip(0) =~= s);
    }
}

/// What the back strip leaves is a prefix of the text.
proof fn lemma_strip_back_prefix(s: Seq<char>, k: CharClass)
    ensures
        strip_back(s, k).len() <= s.len(),
        strip_back(s, k) == s.take(strip_back(s, k).len() as int),
    decreases s.len(),
{
    if s.len() > 0 && in_class(k, s.last()) {
        let t = s.drop_last();
        lemma_strip_back_prefix(t, k);
        let r = strip_back(t, k);
        assert(t.take(r.len() as int) =~= s.take(r.len() as int));
    } else {
        assert(s.take(s.len() as int) =~= s);
    }
}

/// A trimmed text occurs in the text it was trimmed from.
pub proof fn lemma_trim_within(s: Seq<char>, k: CharClass)
    ensures
        contains_seq(s, trim_by(s, k)),
{
    lemma_strip_front_suffix(s, k);
    let f = strip_front(s, k);
    lemma_strip_back_prefix(f, k);
    let b = strip_back(f, k);
    let a = s.len() - f.len();
    assert(s.subrange(a, a + b.len()) =~= b);
}

/// Occurring in is transitive.
pub proof fn lemma_contains_trans(a: Seq<char>, b: Seq<char>, c: Seq<char>)
    requires
        contains_seq(a, b),
        contains_seq(b, c),
    ensures
        contains_seq(a, c),
{
    let i = choose|i: int| 0 <= i && i + b.len() <= a.len() && #[trigger] a.subrange(i, i + b.len()) == b;
    let j = choose|j: int| 0 <= j && j + c.len() <= b.len() && #[trigger] b.subrange(j, j + c.len()) == c;
    assert(a.subrange(i + j, i + j + c.len()) =~= c) by {
        assert forall|q: int| 0 <= q < c.len() implies a.subrange(i + j, i + j + c.len())[q] == c[q] by {
            assert(c[q] == b.subrange(j, j + c.len())[q]);
            assert(b[j + q] == a.subrange(i, i + b.len())[j + q]);
        }
    }
}

/// A run found at `i` occurs in the text.
pub proof fn lemma_contains_at(s: Seq<char>, p: Seq<char>, i: int)
    requires
        0 <= i,
        i + p.len() <= s.len(),
        s.subrange(i, i + p.len()) == p,
    ensures
        contains_seq(s, p),
{
}

/// Every piece of a split occurs in the text; the last piece ends it.
pub proof fn lemma_split_pieces_within(s: Seq<char>, k: CharClass)
    ensures
        forall|i: int|
            0 <= i < split_by(s, k).len() ==> contains_seq(s, #[trigger] split_by(s, k)[i]),
        split_by(s, k).len() >= 1,
        split_by(s, k).last().len() <= s.len(),
        s.skip(s.len() - split_by(s, k).last().len()) == split_by(s, k).last(),
    decreases s.len(),
{
    if s.len() == 0 {
        assert forall|i: int| 0 <= i < split_by(s, k).len() implies contains_seq(
            s,
            #[trigger] split_by(s, k)[i],
        ) by {
            assert(s.subrange(0, 0) =~= split_by(s, k)[i]);
            lemma_contains_at(s, split_by(s, k)[i], 0);
        }
        assert(s.skip(0) =~= split_by(s, k).last());
    } else {
        let init = s.drop_last();
        let c = s.last();
        lemma_split_pieces_within(init, k);
        let ps = split_by(init, k);
        let qs = split_by(s, k);
        assert forall|i: int| 0 <= i < ps.len() - 1 implies contains_seq(s, #[trigger] ps[i]) by {
            let j = choose|j: int|
                0 <= j && j + ps[i].len() <= init.len() && #[trigger] init.subrange(j, j + ps[i].len())
                    == ps[i];
            assert(s.subrange(j, j + ps[i].len()) =~= init.subrange(j, j + ps[i].len()));
            lemma_contains_at(s, ps[i], j);
        }
        let l = ps.last();
        if in_class(k, c) {
            assert forall|i: int| 0 <= i < qs.len() implies contains_seq(s, #[trigger] qs[i]) by {
                if i < ps.len() - 1 {
                    assert(qs[i] == ps[i]);
                } else if i == ps.len() - 1 {
                    assert(qs[i] == l);
                    let j = init.len() - l.len();
                    assert(s.subrange(j, j + l.len()) =~= init.skip(j));
                    lemma_contains_at(s, l, j);
                } else {
                    assert(s.subrange(0, 0) =~= qs[i]);
                    lemma_contains_at(s, qs[i], 0);
                }
            }
            assert(s.skip(s.len() as int) =~= qs.last());
        } else {
            let l2 = l.push(c);
            assert(qs.last() == l2);
            let j = s.len() - l2.len();
            assert(s.skip(j) =~= l2) by {
                assert(init.skip(j) == l);
            }
            assert forall|i: int| 0 <= i < qs.len() implies contains_seq(s, #[trigger] qs[i]) by {
                if i < ps.len() - 1 {
                    assert(qs[i] == ps[i]);
                } else {
                    assert(qs[i] == l2);
                    assert(s.subrange(j, j + l2.len()) =~= s.skip(j));
                    lemma_contains_at(s, l2, j);
                }
            }
        }
    }
}

/// Lowering the case keeps what occurs in a text.
pub proof fn lemma_contains_lowercase(s: Seq<char>, p: Seq<char>)
    requires
        contains_seq(s, p),
    ensures
        contains_seq(lowercase(s), lowercase(p)),
{
    let i = choose|i: int| 0 <= i && i + p.len() <= s.len() && #[trigger] s.subrange(i, i + p.len()) == p;
    assert(lowercase(s).subrange(i, i + p.len()) =~= lowercase(p)) by {
        assert forall|q: int| 0 <= q < p.len() implies lowercase(s).subrange(i, i + p.len())[q]
            == lowercase(p)[q] by {
            assert(p[q] == s.subrange(i, i + p.len())[q]);
        }
    }
}

/// Lowering the case twice is lowering it once.
pub proof fn lemma_lowercase_idempotent(s: Seq<char>)
    ensures
        lowercase(lowercase(s)) == lowercase(s),
{
    assert(lowercase(lowercase(s)) =~= lowercase(s));
}

/// Lowering the case keeps the count of letters.
pub proof fn lemma_count_alpha_lowercase(s: Seq<char>)
    ensures
        count_alpha(lowercase(s)) == count_alpha(s),
    decreases s.len(),
{
    if s.len() > 0 {
        lemma_count_alpha_lowercase(s.drop_last());
        assert(lowercase(s).drop_last() =~= lowercase(s.drop_last()));
    }
}

/// Cutting at dots commutes with lowering the case.
pub proof fn lemma_split_dot_lowercase(s: Seq<char>)
    ensures
        split_by(lowercase(s), CharClass::Dot) == split_by(s, CharClass::Dot).map_values(
            |p: Seq<char>| lowercase(p),
        ),
    decreases s.len(),
{
    let f = |p: Seq<char>| lowercase(p);
    if s.len() == 0 {
        assert(lowercase(s) =~= s);
        assert(lowercase(Seq::<char>::empty()) =~= Seq::<char>::empty());
        assert(split_by(s, CharClass::Dot) == seq![Seq::<char>::empty()]);
        assert(split_by(s, CharClass::Dot).map_values(f)[0] == f(Seq::<char>::empty()));
        assert(split_by(s, CharClass::Dot).map_values(f) =~= seq![Seq::<char>::empty()]);
    } else {
        let init = s.drop_last();
        lemma_split_dot_lowercase(init);
        lemma_split_nonempty(init, CharClass::Dot);
        assert(lowercase(s).drop_last() =~= lowercase(init));
        assert(lowercase(s).last() == lower_char(s.last()));
        let ps = split_by(init, CharClass::Dot);
        if s.last() == '.' {
            assert(lowercase(Seq::<char>::empty()) =~= Seq::<char>::empty());
            assert(f(Seq::<char>::empty()) == Seq::<char>::empty());
            assert(split_by(s, CharClass::Dot) == ps.push(Seq::<char>::empty()));
            assert(split_by(lowercase(s), CharClass::Dot) == split_by(lowercase(init), CharClass::Dot).push(
                Seq::<char>::empty(),
            ));
            assert(split_by(s, CharClass::Dot).map_values(f) =~= ps.map_values(f).push(
                Seq::<char>::empty(),
            ));
        } else {
            assert(lower_char(s.last()) != '.');
            assert(lowercase(ps.last().push(s.last())) =~= lowercase(ps.last()).push(
                lower_char(s.last()),
            ));
            assert(split_by(s, CharClass::Dot).map_values(f) =~= ps.map_values(f).update(
                ps.len() - 1,
                ps.map_values(f).last().push(lower_char(s.last())),
            ));
        }
    }
}

/// Trims characters of class `k` from both ends, as `str::trim_matches` does.
pub fn trim_chars(s: &Vec<char>, k: CharClass) -> (r: Vec<char>)
    ensures
        r@ == trim_by(s@, k),
{
    let n = s.len();
    let mut i: usize = 0;
    while i < n && char_in_class(k, s[i])
        invariant
            i <= n,
            n == s.len(),
            forall|j: int| 0 <= j < i ==> in_class(k, #[trigger] s@[j]),
        decreases n - i,
    {
        i = i + 1;
    }
    proof {
        lemma_strip_front_at(s@, k, i as int);
    }
    let ghost front = s@.subrange(i as int, n as int);
    let mut e: usize = n;
    while e > i && char_in_class(k, s[e - 1])
        invariant
            i <= e <= n,
            n == s.len(),
            forall|j: int| e <= j < n ==> in_class(k, #[trigger] s@[j]),
        decreases e - i,
    {
        e = e - 1;
    }
    proof {
        assert forall|j: int| (e - i) <= j < front.len() implies in_class(k, #[trigger] front[j]) by {
            assert(front[j] == s@[j + i]);
        }
        if e > i {
            assert(front[e - i - 1] == s@[e - 1]);
        }
        lemma_strip_back_at(front, k, e - i);
    }
    let r = copy_range(s, i, e);
    assert(r@ =~= front.subrange(0, e - i));
    r
}

/// The characters `s[from..to]`.
pub fn copy_range(s: &Vec<char>, from: usize, to: usize) -> (r: Vec<char>)
    requires
        from <= to <= s.len(),
    ensures
        r@ == s@.subrange(from as int, to as int),
{
    let mut r: Vec<char> = Vec::new();
    let mut j = from;
    while j < to
        invariant
            from <= j <= to <= s.len(),
            r@ == s@.subrange(from as int, j as int),
        decreases to - j,
    {
        r.push(s[j]);
        j = j + 1;
        assert(r@ =~= s@.subrange(from as int, j as int));
    }
    r
}

/// `s` begins with `p`.
pub open spec fn starts_with(s: Seq<char>, p: Seq<char>) -> bool {
    p.len() <= s.len() && s.subrange(0, p.len() as int) == p
}

/// `s` holds `p` as a contiguous run somewhere.
pub open spec fn contains_seq(s: Seq<char>, p: Seq<char>) -> bool {
    exists|i: int| 0 <= i && i + p.len() <= s.len() && #[trigger] s.subrange(i, i + p.len()) == p
}

/// The index of the first `c` in `s`, or `s.len()` when `s` has none.
pub open spec fn find_char(s: Seq<char>, c: char) -> int
    decreases s.len(),
{
    if s.len() == 0 {
        0
    } else if s[0] == c {
        0
    } else {
        1 + find_char(s.drop_first(), c)
    }
}

/// `find_char` is the first position holding `c`.
pub proof fn lemma_find_char(s: Seq<char>, c: char)
    ensures
        0 <= find_char(s, c) <= s.len(),
        find_char(s, c) < s.len() ==> s[find_char(s, c)] == c,
        forall|j: int| 0 <= j < find_char(s, c) ==> s[j] != c,
    decreases s.len(),
{
    if s.len() > 0 && s[0] != c {
        let t = s.drop_first();
        lemma_find_char(t, c);
        assert forall|j: int| 0 <= j < find_char(s, c) implies s[j] != c by {
            if j > 0 {
                assert(s[j] == t[j - 1]);
            }
        }
    }
}

/// Any position that is the first to hold `c` (or the end, when none does)
/// is `find_char`.
pub proof fn lemma_find_char_at(s: Seq<char>, c: char, p: int)
    requires
        0 <= p <= s.len(),
        p < s.len() ==> s[p] == c,
        forall|j: int| 0 <= j < p ==> s[j] != c,
    ensures
        find_char(s, c) == p,
    decreases s.len(),
{
    if s.len() > 0 && p > 0 {
        let t = s.drop_first();
        assert forall|j: int| 0 <= j < p - 1 implies t[j] != c by {
            assert(t[j] == s[j + 1]);
        }
        if p - 1 < t.len() {
            assert(t[p - 1] == s[p]);
        }
        lemma_find_char_at(t, c, p - 1);
    }
}

/// The index of the first `c` in `s`, or `s.len()` when there is none.
pub fn find_char_index(s: &Vec<char>, c: char) -> (r: usize)
    ensures
        r == find_char(s@, c),
{
    let mut i: usize = 0;
    while i < s.len() && s[i] != c
        invariant
            i <= s.len(),
            forall|j: int| 0 <= j < i ==> s@[j] != c,
        decreases s.len() - i,
    {
        i = i + 1;
    }
    proof {
        lemma_find_char_at(s@, c, i as int);
    }
    i
}

/// Whether two texts are equal.
pub fn seq_equal(a: &Vec<char>, b: &Vec<char>) -> (r: bool)
    ensures
        r == (a@ == b@),
{
    if a.len() != b.len() {
        return false;
    }
    let mut i: usize = 0;
    while i < a.len()
        invariant
            i <= a.len() == b.len(),
            forall|j: int| 0 <= j < i ==> a@[j] == b@[j],
        decreases a.len() - i,
    {
        if a[i] != b[i] {
            return false;
        }
        i = i + 1;
    }
    assert(a@ =~= b@);
    true
}

/// Whether `s` starts with `p` when read from position `at`.
fn matches_at(s: &Vec<char>, p: &Vec<char>, at: usize) -> (r: bool)
    requires
        at + p.len() <= s.len(),
    ensures
        r == (s@.subrange(at as int, at + p.len()) == p@),
{
    let mut j: usize = 0;
    while j < p.len()
        invariant
            j <= p.len(),
            at + p.len() <= s.len(),
            forall|q: int| 0 <= q < j ==> s@[at + q] == p@[q],
        decreases p.len() - j,
    {
        if s[at + j] != p[j] {
            assert(s@.subrange(at as int, at + p.len())[j as int] != p@[j as int]);
            return false;
        }
        j = j + 1;
    }
    assert(s@.subrange(at as int, at + p.len()) =~= p@);
    true
}

/// Whether `s` begins with `p` (`str::starts_with`).
pub fn has_prefix(s: &Vec<char>, p: &Vec<char>) -> (r: bool)
    ensures
        r == starts_with(s@, p@),
{
    if p.len() > s.len() {
        return false;
    }
    matches_at(s, p, 0)
}

/// Substring search, as `str::contains` with a string pattern.
pub fn has_substring(s: &Vec<char>, p: &Vec<char>) -> (r: bool)
    ensures
        r == contains_seq(s@, p@),
{
    if p.len() > s.len() {
        return false;
    }
    let last = s.len() - p.len();
    let mut i: usize = 0;
    loop
        invariant
            last + p.len() == s.len(),
            i <= last,
            forall|q: int| 0 <= q < i ==> #[trigger] s@.subrange(q, q + p.len()) != p@,
        decreases last - i,
    {
        if matches_at(s, p, i) {
            return true;
        }
        if i == last {
            assert forall|q: int| 0 <= q && q + p.len() <= s.len() implies #[trigger] s@.subrange(
                q,
                q + p.len(),
            ) != p@ by {
                assert(q <= i);
            }
            return false;
        }
        i = i + 1;
    }
}

/// Whether `s` holds the character `c`.
pub fn has_char(s: &Vec<char>, c: char) -> (r: bool)
    ensures
        r == s@.contains(c),
{
    let mut i: usize = 0;
    while i < s.len()
        invariant
            i <= s.len(),
            forall|j: int| 0 <= j < i ==> s@[j] != c,
        decreases s.len() - i,
    {
        if s[i] == c {
            return true;
        }
        i = i + 1;
    }
    false
}

/// The ASCII lowercase of a text.
pub open spec fn lowercase(s: Seq<char>) -> Seq<char> {
    s.map_values(|c: char| lower_char(c))
}

/// `str::to_ascii_lowercase`.
pub fn to_lowercase(s: &Vec<char>) -> (r: Vec<char>)
    ensures
        r@ == lowercase(s@),
{
    let mut r: Vec<char> = Vec::new();
    let mut i: usize = 0;
    while i < s.len()
        invariant
            i <= s.len(),
            r@ == lowercase(s@.take(i as int)),
        decreases s.len() - i,
    {
        r.push(char_to_lower(s[i]));
        i = i + 1;
        assert(r@ =~= lowercase(s@.take(i as int)));
    }
    assert(s@.take(s.len() as int) =~= s@);
    r
}

/// How many ASCII letters a text holds.
pub open spec fn count_alpha(s: Seq<char>) -> nat
    decreases s.len(),
{
    if s.len() == 0 {
        0
    } else {
        count_alpha(s.drop_last()) + if is_alpha(s.last()) {
            1nat
        } else {
            0nat
        }
    }
}

/// How many ASCII letters a text holds.
pub fn alpha_count(s: &Vec<char>) -> (r: usize)
    ensures
        r == count_alpha(s@),
{
    let mut n: usize = 0;
    let mut i: usize = 0;
    while i < s.len()
        invariant
            i <= s.len(),
            n == count_alpha(s@.take(i as int)),
            n <= i,
        decreases s.len() - i,
    {
        assert(s@.take(i + 1).drop_last() =~= s@.take(i as int));
        if char_is_alpha(s[i]) {
            n = n + 1;
        }
        i = i + 1;
    }
    assert(s@.take(s.len() as int) =~= s@);
    n
}

// ---------------------------------------------------------------------------
// Strings
// ---------------------------------------------------------------------------

/// Appends one character to a `String` (`String::push`).
#[verifier::external_body]
pub(crate) fn push_char(s: &mut String, c: char)
    ensures
        final(s)@ == old(s)@.push(c),
{
    s.push(c);
}

/// A `String` of the given characters.
pub fn string_of(v: &Vec<char>) -> (s: String)
    ensures
        s@ == v@,
{
    let mut s = String::new();
    let mut i: usize = 0;
    while i < v.len()
        invariant
            i <= v.len(),
            s@ == v@.take(i as int),
        decreases v.len() - i,
    {
        push_char(&mut s, v[i]);
        i = i + 1;
        assert(s@ =~= v@.take(i as int));
    }
    assert(v@.take(v.len() as int) =~= v@);
    s
}

/// The characters of `s`, in order.
pub fn chars_of(s: &str) -> (v: Vec<char>)
    ensures
        v@ == s@,
{
    let mut v: Vec<char> = Vec::new();
    let mut it = s.chars();
    for c in iter: it
        invariant
            v@ == iter.seq().take(iter.index()),
    {
        v.push(c);
    }
    v
}

/// `s@ + t@` as a new `String`.
pub fn concat_str(s: &str, t: &str) -> (r: String)
    ensures
        r@ == s@ + t@,
{
    let mut r = s.to_owned();
    r.append(t);
    r
}

// ---------------------------------------------------------------------------
// Numerals
// ---------------------------------------------------------------------------

/// The lowercase digit character of a value below 16.
pub open spec fn digit_char(d: nat) -> char
    recommends
        d < 16,
{
    if d < 10 {
        (('0' as u32) + d) as char
    } else {
        (('a' as u32) + d - 10) as char
    }
}

/// The numeral of `n` in base `radix` (2..=16), lowercase, with no leading zero.
pub open spec fn numeral(n: nat, radix: nat) -> Seq<char>
    recommends
        2 <= radix <= 16,
    decreases n,
{
    if n < radix || radix < 2 {
        seq![digit_char(n)]
    } else {
        proof {
            lemma_quotient_smaller(n, radix);
        }
        numeral(n / radix, radix).push(digit_char(n % radix))
    }
}

/// Division by a radix of at least 2 shrinks a number and splits it into
/// quotient and remainder.
pub proof fn lemma_quotient_smaller(n: nat, radix: nat)
    requires
        radix >= 2,
        n >= radix,
    ensures
        n / radix < n,
        n == (n / radix) * radix + n % radix,
        n % radix < radix,
{
    assert(n / radix < n) by (nonlinear_arith)
        requires
            radix >= 2,
            n >= radix,
    ;
    assert(n == (n / radix) * radix + n % radix) by (nonlinear_arith)
        requires
            radix >= 2,
    ;
    assert(n % radix < radix) by (nonlinear_arith)
        requires
            radix >= 2,
    ;
}

/// The decimal numeral of a signed value, with a leading `-` when negative
/// (what `Display` prints for an integer).
pub open spec fn decimal(v: int) -> Seq<char> {
    if v < 0 {
        seq!['-'] + numeral((-v) as nat, 10)
    } else {
        numeral(v as nat, 10)
    }
}

/// The value of a digit character in base `radix`, as `char::to_digit`.
pub open spec fn digit_value(c: char, radix: nat) -> Option<nat> {
    let v: int = if '0' <= c <= '9' {
        c as int - '0' as int
    } else if 'a' <= c <= 'z' {
        c as int - 'a' as int + 10
    } else if 'A' <= c <= 'Z' {
        c as int - 'A' as int + 10
    } else {
        99
    };
    if 0 <= v < radix {
        Some(v as nat)
    } else {
        None
    }
}

/// Every character is a digit in base `radix`.
pub open spec fn all_digits(s: Seq<char>, radix: nat) -> bool {
    forall|i: int| 0 <= i < s.len() ==> #[trigger] digit_value(s[i], radix) is Some
}

/// The value of a run of digits in base `radix`, most significant first.
pub open spec fn digits_value(s: Seq<char>, radix: nat) -> nat
    decreases s.len(),
{
    if s.len() == 0 {
        0
    } else {
        digits_value(s.drop_last(), radix) * radix + digit_value(s.last(), radix).unwrap_or(0)
    }
}

/// What `u64::from_str` / `u64::from_str_radix` accept: an optional `+` and
/// at least one digit, read as an unbounded number.
pub open spec fn parse_unsigned(s: Seq<char>, radix: nat) -> Option<nat> {
    let body = if s.len() > 0 && s[0] == '+' {
        s.drop_first()
    } else {
        s
    };
    if body.len() > 0 && all_digits(body, radix) {
        Some(digits_value(body, radix))
    } else {
        None
    }
}

/// What `i64::from_str` / `i64::from_str_radix` accept: an optional sign and
/// at least one digit, read as an unbounded number.
pub open spec fn parse_signed(s: Seq<char>, radix: nat) -> Option<int> {
    if s.len() > 0 && s[0] == '-' {
        let body = s.drop_first();
        if body.len() > 0 && all_digits(body, radix) {
            Some(-(digits_value(body, radix) as int))
        } else {
            None
        }
    } else {
        match parse_unsigned(s, radix) {
            Some(v) => Some(v as int),
            None => None,
        }
    }
}

/// `u64::from_str` (radix 10) and `u64::from_str_radix`.
pub open spec fn parse_u64_spec(s: Seq<char>, radix: nat) -> Option<u64> {
    match parse_unsigned(s, radix) {
        Some(v) => if v <= u64::MAX {
            Some(v as u64)
        } else {
            None
        },
        None => None,
    }
}

/// `i64::from_str` (radix 10) and `i64::from_str_radix`.
pub open spec fn parse_i64_spec(s: Seq<char>, radix: nat) -> Option<i64> {
    match parse_signed(s, radix) {
        Some(v) => if i64::MIN <= v <= i64::MAX {
            Some(v as i64)
        } else {
            None
        },
        None => None,
    }
}

fn digit_of(c: char, radix: u32) -> (r: Option<u32>)
    requires
        2 <= radix <= 36,
    ensures
        r matches Some(d) ==> digit_value(c, radix as nat) == Some(d as nat) && d < radix,
        r is None ==> digit_value(c, radix as nat) is None,
{
    let v: u32 = if '0' <= c && c <= '9' {
        (c as u32) - ('0' as u32)
    } else if 'a' <= c && c <= 'z' {
        (c as u32) - ('a' as u32) + 10
    } else if 'A' <= c && c <= 'Z' {
        (c as u32) - ('A' as u32) + 10
    } else {
        99
    };
    if v < radix {
        Some(v)
    } else {
        None
    }
}

proof fn lemma_digits_value_grows(s: Seq<char>, radix: nat)
    requires
        radix >= 1,
        s.len() > 0,
    ensures
        digits_value(s, radix) >= digits_value(s.drop_last(), radix),
{
    let p = digits_value(s.drop_last(), radix);
    assert(p * radix >= p) by (nonlinear_arith)
        requires
            radix >= 1,
    ;
}

proof fn lemma_digits_value_monotone(s: Seq<char>, i: int, radix: nat)
    requires
        radix >= 1,
        0 <= i <= s.len(),
    ensures
        digits_value(s, radix) >= digits_value(s.take(i), radix),
    decreases s.len() - i,
{
    if i < s.len() {
        lemma_digits_value_monotone(s, i + 1, radix);
        assert(s.take(i + 1).drop_last() =~= s.take(i));
        lemma_digits_value_grows(s.take(i + 1), radix);
    } else {
        assert(s.take(i) =~= s);
    }
}

/// Reads the digits `s[from..]` in base `radix`; `None` when one is not a
/// digit, when there are none, or when the value exceeds `u64::MAX`.
fn read_digits(s: &Vec<char>, from: usize, radix: u32) -> (r: Option<u64>)
    requires
        2 <= radix <= 36,
        from <= s.len(),
    ensures
        ({
            let body = s@.skip(from as int);
            r == (if body.len() > 0 && all_digits(body, radix as nat) && digits_value(
                body,
                radix as nat,
            ) <= u64::MAX {
                Some(digits_value(body, radix as nat) as u64)
            } else {
                None::<u64>
            })
        }),
{
    let ghost body = s@.skip(from as int);
    if from == s.len() {
        return None;
    }
    let mut acc: u64 = 0;
    let mut i: usize = from;
    while i < s.len()
        invariant
            2 <= radix <= 36,
            from <= i <= s.len(),
            body == s@.skip(from as int),
            all_digits(body.take(i - from), radix as nat),
            acc == digits_value(body.take(i - from), radix as nat),
        decreases s.len() - i,
    {
        let ghost pre = body.take(i - from);
        let ghost next = body.take(i - from + 1);
        assert(next.drop_last() =~= pre);
        assert(next.last() == s@[i as int]);
        match digit_of(s[i], radix) {
            None => {
                assert(!all_digits(body, radix as nat)) by {
                    assert(body[i - from] == s@[i as int]);
                }
                return None;
            },
            Some(d) => {
                assert((acc as u128) * (radix as u128) <= 36 * 18446744073709551615u128)
                    by (nonlinear_arith)
                    requires
                        acc <= 18446744073709551615u64,
                        radix <= 36,
                ;
                let big: u128 = (acc as u128) * (radix as u128) + (d as u128);
                assert(big == digits_value(next, radix as nat));
                if big > u64::MAX as u128 {
                    proof {
                        lemma_digits_value_monotone(body, i - from + 1, radix as nat);
                    }
                    return None;
                }
                acc = big as u64;
                assert(all_digits(next, radix as nat)) by {
                    assert forall|q: int| 0 <= q < next.len() implies #[trigger] digit_value(
                        next[q],
                        radix as nat,
                    ) is Some by {
                        if q < pre.len() {
                            assert(next[q] == pre[q]);
                        }
                    }
                }
            },
        }
        i = i + 1;
    }
    assert(body.take(s.len() - from) =~= body);
    Some(acc)
}

/// `u64::from_str_radix(s, radix)` (and `s.parse::<u64>()` for radix 10).
pub fn parse_u64(s: &Vec<char>, radix: u32) -> (r: Option<u64>)
    requires
        2 <= radix <= 36,
    ensures
        r == parse_u64_spec(s@, radix as nat),
{
    if s.len() > 0 && s[0] == '+' {
        assert(s@.skip(1) =~= s@.drop_first());
        read_digits(s, 1, radix)
    } else {
        assert(s@.skip(0) =~= s@);
        read_digits(s, 0, radix)
    }
}

/// `i64::from_str_radix(s, radix)` (and `s.parse::<i64>()` for radix 10).
pub fn parse_i64(s: &Vec<char>, radix: u32) -> (r: Option<i64>)
    requires
        2 <= radix <= 36,
    ensures
        r == parse_i64_spec(s@, radix as nat),
{
    if s.len() > 0 && s[0] == '-' {
        assert(s@.skip(1) =~= s@.drop_first());
        match read_digits(s, 1, radix) {
            None => {
                proof {
                    let body = s@.drop_first();
                    if body.len() > 0 && all_digits(body, radix as nat) {
                        assert(digits_value(body, radix as nat) > u64::MAX);
                    }
                }
                None
            },
            Some(m) => {
                if m <= 9223372036854775808u64 {
                    let r: i128 = -(m as i128);
                    Some(r as i64)
                } else {
                    None
                }
            },
        }
    } else {
        match parse_u64(s, radix) {
            None => {
                proof {
                    if parse_unsigned(s@, radix as nat) is Some {
                        assert(parse_unsigned(s@, radix as nat).unwrap() > u64::MAX);
                    }
                }
                None
            },
            Some(v) => {
                if v <= 9223372036854775807u64 {
                    Some(v as i64)
                } else {
                    None
                }
            },
        }
    }
}

/// Appends the numeral of `n` in base `radix`.
pub fn push_numeral(out: &mut String, n: u128, radix: u32)
    requires
        2 <= radix <= 16,
    ensures
        final(out)@ == old(out)@ + numeral(n as nat, radix as nat),
    decreases n,
{
    let r = radix as u128;
    if n >= r {
        proof {
            lemma_quotient_smaller(n as nat, r as nat);
        }
        push_numeral(out, n / r, radix);
    }
    let d: u128 = n % r;
    let c: char = if d < 10 {
        let b: u8 = (48 + d) as u8;
        b as char
    } else {
        let b: u8 = (87 + d) as u8;
        b as char
    };
    assert(c == digit_char(d as nat));
    push_char(out, c);
    proof {
        if n >= r {
            assert(old(out)@ + numeral(n as nat, radix as nat) =~= old(out)@ + numeral(
                (n / r) as nat,
                radix as nat,
            ) + seq![c]);
        } else {
            assert(d == n) by (nonlinear_arith)
                requires
                    n < r,
                    d == n % r,
            ;
            assert(old(out)@ + numeral(n as nat, radix as nat) =~= old(out)@ + seq![c]);
        }
    }
}

/// The decimal text of a signed value (what `to_string` gives).
pub fn decimal_string(v: i128) -> (s: String)
    ensures
        s@ == decimal(v as int),
{
    let mut s = String::new();
    if v < 0 {
        push_char(&mut s, '-');
        let m: u128 = if v == i128::MIN {
            170141183460469231731687303715884105728u128
        } else {
            (-v) as u128
        };
        push_numeral(&mut s, m, 10);
        assert(s@ =~= decimal(v as int));
    } else {
        push_numeral(&mut s, v as u128, 10);
        assert(s@ =~= decimal(v as int));
    }
    s
}

/// A numeral is a non-empty run of digits, unsigned, that reads back as
/// its value.
pub proof fn lemma_numeral_digits(n: nat, radix: nat)
    requires
        2 <= radix <= 16,
    ensures
        numeral(n, radix).len() > 0,
        all_digits(numeral(n, radix), radix),
        digits_value(numeral(n, radix), radix) == n,
        numeral(n, radix)[0] != '+',
        numeral(n, radix)[0] != '-',
    decreases n,
{
    if n < radix {
        assert(digit_value(digit_char(n), radix) == Some(n));
        assert(numeral(n, radix).drop_last() =~= Seq::<char>::empty());
        assert(digits_value(Seq::<char>::empty(), radix) == 0);
        assert(0 * radix == 0) by (nonlinear_arith);
        assert(digits_value(numeral(n, radix), radix) == 0 * radix + n);
    } else {
        lemma_quotient_smaller(n, radix);
        lemma_numeral_digits(n / radix, radix);
        let m = n % radix;
        assert(m < radix);
        assert(digit_value(digit_char(m), radix) == Some(m));
        let s = numeral(n, radix);
        assert(s.drop_last() =~= numeral(n / radix, radix));
        assert(n == (n / radix) * radix + m) by (nonlinear_arith)
            requires
                radix > 0,
                m == n % radix,
        ;
        assert forall|i: int| 0 <= i < s.len() implies #[trigger] digit_value(s[i], radix) is Some by {
            if i < s.len() - 1 {
                assert(s[i] == numeral(n / radix, radix)[i]);
            }
        }
        assert(s[0] == numeral(n / radix, radix)[0]);
        assert(s.last() == digit_char(m));
        assert(digits_value(s, radix) == digits_value(s.drop_last(), radix) * radix + m);
    }
}

} // verus!

verus! {

/// The text an optional `String` holds.
pub open spec fn opt_view(o: Option<String>) -> Option<Seq<char>> {
    match o {
        Some(s) => Some(s@),
        None => None,
    }
}

/// Whether `s` equals the literal `lit`.
pub fn is_lit(s: &Vec<char>, lit: &str) -> (r: bool)
    ensures
        r == (s@ == lit@),
{
    let l = chars_of(lit);
    seq_equal(s, &l)
}

/// Whether `s` holds the literal `lit` somewhere (`str::contains`).
pub fn has_lit(s: &Vec<char>, lit: &str) -> (r: bool)
    ensures
        r == contains_seq(s@, lit@),
{
    let l = chars_of(lit);
    has_substring(s, &l)
}

} // verus!
