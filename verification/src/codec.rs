//! Hexadecimal and UTF-8 conversions: the `hex` crate and `std::str::from_utf8`
//! behind small trusted wrappers, and the lossy rendering of coinbase bytes.

use vstd::prelude::*;
use vstd::string::StringSliceAdditionalSpecFns;
use vstd::utf8::*;

use crate::text::{char_is_control, digit_char, is_control, push_char};

verus! {

/// The value of one ASCII hex digit byte, either case.
pub open spec fn nibble(b: u8) -> Option<u8> {
    if 0x30 <= b <= 0x39 {
        Some((b - 0x30) as u8)
    } else if 0x61 <= b <= 0x66 {
        Some((b - 0x61 + 10) as u8)
    } else if 0x41 <= b <= 0x46 {
        Some((b - 0x41 + 10) as u8)
    } else {
        None
    }
}

/// What `hex::decode` returns: `None` for an odd length or a non-hex byte,
/// otherwise each pair of digits read as one byte, high nibble first.
pub open spec fn hex_decoded(d: Seq<u8>) -> Option<Seq<u8>> {
    if d.len() % 2 == 0 && forall|i: int| 0 <= i < d.len() ==> #[trigger] nibble(d[i]) is Some {
        Some(
            Seq::new(
                d.len() / 2,
                |i: int| (nibble(d[2 * i]).unwrap() * 16 + nibble(d[2 * i + 1]).unwrap()) as u8,
            ),
        )
    } else {
        None
    }
}

/// The lowercase hex text of `d` (what `hex::encode` returns).
pub open spec fn hex_text(d: Seq<u8>) -> Seq<char> {
    Seq::new(
        2 * d.len(),
        |i: int|
            if i % 2 == 0 {
                digit_char((d[i / 2] / 16) as nat)
            } else {
                digit_char((d[i / 2] % 16) as nat)
            },
    )
}

/// `hex::decode`: the bytes that the hex digits in `data` spell, or `None`
/// when the length is odd or a byte is not a hex digit.
#[verifier::external_body]
pub(crate) fn hex_decode(data: &[u8]) -> (r: Option<Vec<u8>>)
    ensures
        match r {
            Some(v) => hex_decoded(data@) == Some(v@),
            None => hex_decoded(data@) is None,
        },
{
    hex::decode(data).ok()
}

/// `hex::encode`: two lowercase hex digits per byte, high nibble first.
#[verifier::external_body]
pub(crate) fn hex_encode(data: &[u8]) -> (r: String)
    ensures
        r@ == hex_text(data@),
{
    hex::encode(data)
}

/// `std::str::from_utf8`: the text that `bytes` encode, when they are valid
/// UTF-8.
#[verifier::external_body]
pub(crate) fn utf8_decode(bytes: &[u8]) -> (r: Option<String>)
    ensures
        r is Some <==> valid_utf8(bytes@),
        r matches Some(s) ==> s@ == decode_utf8(bytes@),
{
    match std::str::from_utf8(bytes) {
        Ok(s) => Some(s.to_string()),
        Err(_) => None,
    }
}

/// A byte that renders as itself: printable ASCII or a space.
pub open spec fn renders_as_itself(b: u8) -> bool {
    0x20 <= b <= 0x7e
}

/// The length of the UTF-8 sequence that a lead byte `b >= 0xc2` announces.
pub open spec fn lead_width(b: u8) -> int {
    if b >= 0xf0 {
        4
    } else if b >= 0xe0 {
        3
    } else {
        2
    }
}

/// The smaller of two integers.
pub open spec fn min_int(a: int, b: int) -> int {
    if a <= b {
        a
    } else {
        b
    }
}

/// Whether a chunk of bytes is valid UTF-8 whose first character is not a
/// control character.
pub open spec fn decodes_visible(chunk: Seq<u8>) -> bool {
    valid_utf8(chunk) && decode_utf8(chunk).len() > 0 && !is_control(decode_utf8(chunk)[0])
}

/// How coinbase bytes are shown: printable ASCII and spaces as themselves,
/// a whole UTF-8 sequence (at most four bytes, as its lead byte announces) as
/// its characters when it is valid and does not start with a control
/// character, and `.` for every other byte.
pub open spec fn render_lossy(b: Seq<u8>) -> Seq<char>
    decreases b.len(),
{
    if b.len() == 0 {
        Seq::<char>::empty()
    } else if renders_as_itself(b[0]) {
        seq![b[0] as char] + render_lossy(b.drop_first())
    } else if b[0] >= 0xc2 {
        let end = min_int(lead_width(b[0]), b.len() as int);
        if decodes_visible(b.take(end)) {
            decode_utf8(b.take(end)) + render_lossy(b.skip(end))
        } else {
            seq!['.'] + render_lossy(b.drop_first())
        }
    } else {
        seq!['.'] + render_lossy(b.drop_first())
    }
}

/// The bytes that `hex` spells, or nothing when it is not valid hex.
pub open spec fn hex_bytes_or_empty(hex: Seq<u8>) -> Seq<u8> {
    match hex_decoded(hex) {
        Some(b) => b,
        None => Seq::<u8>::empty(),
    }
}

fn copy_bytes(s: &Vec<u8>, from: usize, to: usize) -> (r: Vec<u8>)
    requires
        from <= to <= s.len(),
    ensures
        r@ == s@.subrange(from as int, to as int),
{
    let mut r: Vec<u8> = Vec::new();
    let mut j = from;
    while j < to
        invariant
            from <= j <= to <= s.len(),
            r@ == s@.subrange(from as int, j as int),
        decreases to - j,
    {
        r.push(s[j]);
        j = j + 1;
        assert(r@ =~= s@.subrange(from as int, j as int));
    }
    r
}

fn byte_char(b: u8) -> (c: char)
    ensures
        c == b as char,
{
    b as char
}

/// Renders the bytes that a coinbase scriptSig's hex spells as text: printable
/// ASCII stays, valid multibyte UTF-8 characters (such as emoji markers) stay,
/// and every other byte shows as `.`. Text that is not valid hex renders as
/// nothing.
pub fn hex_to_ascii_lossy(hex: &str) -> (out: String)
    ensures
        out@ == render_lossy(hex_bytes_or_empty(hex.spec_bytes())),
{
    let bytes: Vec<u8> = match hex_decode(hex.as_bytes()) {
        Some(v) => v,
        None => Vec::new(),
    };
    let ghost all = bytes@;
    assert(all == hex_bytes_or_empty(hex.spec_bytes()));
    let mut out = String::new();
    let n = bytes.len();
    let mut i: usize = 0;
    assert(all.skip(0) =~= all);
    while i < n
        invariant
            i <= n,
            n == bytes.len(),
            all == bytes@,
            out@ + render_lossy(all.skip(i as int)) == render_lossy(all),
        decreases n - i,
    {
        let b = bytes[i];
        let ghost rest = all.skip(i as int);
        let ghost prev = out@;
        assert(rest[0] == b);
        assert(rest.drop_first() =~= all.skip(i + 1));
        if 0x20 <= b && b <= 0x7e {
            let c = byte_char(b);
            push_char(&mut out, c);
            assert(render_lossy(rest) == seq![c] + render_lossy(all.skip(i + 1)));
            assert(out@ + render_lossy(all.skip(i + 1)) =~= prev + render_lossy(rest));
            i = i + 1;
        } else if b >= 0xc2 {
            let w: usize = if b >= 0xf0 {
                4
            } else if b >= 0xe0 {
                3
            } else {
                2
            };
            let end: usize = if w <= n - i {
                i + w
            } else {
                n
            };
            assert(end - i == min_int(lead_width(b), rest.len() as int));
            let chunk = copy_bytes(&bytes, i, end);
            assert(chunk@ =~= rest.take(end - i));
            let decoded = utf8_decode(chunk.as_slice());
            let mut taken = false;
            match decoded {
                Some(s) => {
                    if s.as_str().unicode_len() > 0 {
                        let first = s.as_str().get_char(0);
                        if !char_is_control(first) {
                            out.append(s.as_str());
                            assert(rest.skip(end - i) =~= all.skip(end as int));
                            assert(decodes_visible(rest.take(end - i)));
                            assert(render_lossy(rest) == decode_utf8(rest.take(end - i)) + render_lossy(
                                all.skip(end as int),
                            ));
                            assert(out@ + render_lossy(all.skip(end as int)) =~= prev + render_lossy(rest));
                            taken = true;
                            i = end;
                        }
                    }
                },
                None => {},
            }
            if !taken {
                assert(!decodes_visible(rest.take(end - i)));
                push_char(&mut out, '.');
                assert(render_lossy(rest) == seq!['.'] + render_lossy(all.skip(i + 1)));
                assert(out@ + render_lossy(all.skip(i + 1)) =~= prev + render_lossy(rest));
                i = i + 1;
            }
        } else {
            push_char(&mut out, '.');
            assert(render_lossy(rest) == seq!['.'] + render_lossy(all.skip(i + 1)));
            assert(out@ + render_lossy(all.skip(i + 1)) =~= prev + render_lossy(rest));
            i = i + 1;
        }
    }
    assert(all.skip(n as int) =~= Seq::<u8>::empty());
    out
}

/// A character a rendering may hold: printable ASCII (the `.` filler among
/// them), or a character beyond ASCII that is not a control character.
pub open spec fn shown_char(c: char) -> bool {
    (' ' <= c && c <= '~') || ((c as u32) >= 0x80 && !is_control(c))
}

/// A visible chunk of at most the width its lead byte announces decodes to
/// one character beyond ASCII.
proof fn lemma_visible_chunk(chunk: Seq<u8>)
    requires
        chunk.len() >= 1,
        chunk[0] >= 0xc2,
        chunk.len() <= lead_width(chunk[0]),
        decodes_visible(chunk),
    ensures
        decode_utf8(chunk).len() == 1,
        shown_char(decode_utf8(chunk)[0]),
{
    assert(valid_first_scalar(chunk));
    let l = length_of_first_codepoint(chunk);
    assert(l == chunk.len());
    assert(pop_first_scalar(chunk) =~= Seq::<u8>::empty());
    assert(valid_utf8(Seq::<u8>::empty()));
    assert(decode_utf8(Seq::<u8>::empty()) =~= Seq::<char>::empty());
    let x = decode_first_scalar(chunk) as char;
    assert(decode_utf8(chunk) =~= seq![x]);
    decode_utf8_first_scalar(chunk);
    assert(take_first_scalar(chunk) =~= chunk);
    assert(encode_scalar(x as u32) == chunk);
    assert((x as u32) >= 0x80);
}

/// Every character of a rendering is printable ASCII, or lies beyond ASCII
/// and is not a control character; a rendering never has more characters
/// than there are bytes.
pub proof fn law_render_lossy_shown(b: Seq<u8>)
    ensures
        render_lossy(b).len() <= b.len(),
        forall|i: int| 0 <= i < render_lossy(b).len() ==> shown_char(#[trigger] render_lossy(b)[i]),
    decreases b.len(),
{
    if b.len() > 0 {
        let r = render_lossy(b);
        if renders_as_itself(b[0]) {
            let rest = b.drop_first();
            law_render_lossy_shown(rest);
            let c = b[0] as char;
            assert(r == seq![c] + render_lossy(rest));
            assert forall|i: int| 0 <= i < r.len() implies shown_char(#[trigger] r[i]) by {
                if i > 0 {
                    assert(r[i] == render_lossy(rest)[i - 1]);
                } else {
                    assert(r[0] == c);
                }
            }
        } else if b[0] >= 0xc2 {
            let end = min_int(lead_width(b[0]), b.len() as int);
            if decodes_visible(b.take(end)) {
                let rest = b.skip(end);
                law_render_lossy_shown(rest);
                lemma_visible_chunk(b.take(end));
                let d = decode_utf8(b.take(end));
                assert(r == d + render_lossy(rest));
                assert forall|i: int| 0 <= i < r.len() implies shown_char(#[trigger] r[i]) by {
                    if i > 0 {
                        assert(r[i] == render_lossy(rest)[i - 1]);
                    } else {
                        assert(r[0] == d[0]);
                    }
                }
            } else {
                let rest = b.drop_first();
                law_render_lossy_shown(rest);
                assert(r == seq!['.'] + render_lossy(rest));
                assert forall|i: int| 0 <= i < r.len() implies shown_char(#[trigger] r[i]) by {
                    if i > 0 {
                        assert(r[i] == render_lossy(rest)[i - 1]);
                    }
                }
            }
        } else {
            let rest = b.drop_first();
            law_render_lossy_shown(rest);
            assert(r == seq!['.'] + render_lossy(rest));
            assert forall|i: int| 0 <= i < r.len() implies shown_char(#[trigger] r[i]) by {
                if i > 0 {
                    assert(r[i] == render_lossy(rest)[i - 1]);
                }
            }
        }
    }
}

/// Printable ASCII, space included.
pub open spec fn printable_ascii(s: Seq<char>) -> bool {
    forall|i: int| 0 <= i < s.len() ==> ' ' <= #[trigger] s[i] && s[i] <= '~'
}

proof fn lemma_render_printable(b: Seq<u8>)
    requires
        forall|i: int| 0 <= i < b.len() ==> renders_as_itself(#[trigger] b[i]),
    ensures
        render_lossy(b) == b.map_values(|x: u8| x as char),
    decreases b.len(),
{
    if b.len() > 0 {
        let rest = b.drop_first();
        assert forall|i: int| 0 <= i < rest.len() implies renders_as_itself(#[trigger] rest[i]) by {
            assert(rest[i] == b[i + 1]);
        }
        lemma_render_printable(rest);
        assert(renders_as_itself(b[0]));
        assert(render_lossy(b) =~= b.map_values(|x: u8| x as char));
    }
}

proof fn lemma_nibble_digit(d: nat)
    requires
        d < 16,
    ensures
        (digit_char(d) as u32) < 0x80,
        nibble(digit_char(d) as u8) == Some(d as u8),
{
}

proof fn lemma_hex_decodes_hex_text(b: Seq<u8>)
    ensures
        hex_decoded(encode_utf8(hex_text(b))) == Some(b),
{
    let h = hex_text(b);
    assert forall|i: int| 0 <= i < h.len() implies '\0' <= #[trigger] h[i] <= '\u{7f}' by {
        lemma_nibble_digit((b[i / 2] / 16) as nat);
        lemma_nibble_digit((b[i / 2] % 16) as nat);
    }
    assert(is_ascii_chars(h));
    is_ascii_chars_encode_utf8(h);
    let d = encode_utf8(h);
    assert(d.len() == 2 * b.len());
    assert forall|i: int| 0 <= i < d.len() implies #[trigger] nibble(d[i]) is Some by {
        assert(d[i] == h[i] as u8);
        lemma_nibble_digit((b[i / 2] / 16) as nat);
        lemma_nibble_digit((b[i / 2] % 16) as nat);
    }
    let out = hex_decoded(d).unwrap();
    assert forall|i: int| 0 <= i < b.len() implies out[i] == b[i] by {
        assert(d[2 * i] == h[2 * i] as u8);
        assert(d[2 * i + 1] == h[2 * i + 1] as u8);
        assert((2 * i) / 2 == i);
        assert((2 * i + 1) / 2 == i);
        assert((2 * i) % 2 == 0);
        assert((2 * i + 1) % 2 == 1);
        lemma_nibble_digit((b[i] / 16) as nat);
        lemma_nibble_digit((b[i] % 16) as nat);
    }
    assert(out =~= b);
}

/// Printable ASCII text, spelled in hex and rendered back, is itself.
pub proof fn law_printable_round_trip(s: Seq<char>)
    requires
        printable_ascii(s),
    ensures
        render_lossy(hex_bytes_or_empty(encode_utf8(hex_text(encode_utf8(s))))) == s,
{
    assert(is_ascii_chars(s));
    is_ascii_chars_encode_utf8(s);
    let b = encode_utf8(s);
    lemma_hex_decodes_hex_text(b);
    assert forall|i: int| 0 <= i < b.len() implies renders_as_itself(#[trigger] b[i]) by {
        assert(b[i] == s[i] as u8);
    }
    lemma_render_printable(b);
    assert forall|i: int| 0 <= i < s.len() implies b.map_values(|x: u8| x as char)[i] == s[i] by {
        assert(b[i] == s[i] as u8);
    }
    assert(b.map_values(|x: u8| x as char) =~= s);
}

} // verus!
