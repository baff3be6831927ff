//! The text model: characters, their UTF-8 and UTF-16 widths, and line breaks.
//!
//! A text is a `Seq<char>`; its bytes are `encode_utf8` of it. The lemmas here
//! relate walks over the bytes to facts about the characters.

use vstd::prelude::*;
use vstd::string::*;
use vstd::utf8::*;

verus! {

broadcast use vstd::utf8::char_is_scalar;

// ------------------------------------------------------------------
// UTF-8 and UTF-16 widths.

/// The byte length of the UTF-8 encoding that starts with lead byte `b`.
pub open spec fn lead_width(b: u8) -> int {
    if b < 0x80 {
        1
    } else if b < 0xE0 {
        2
    } else if b < 0xF0 {
        3
    } else {
        4
    }
}

/// The byte length of the char whose lead byte is `b`.
pub fn lead_width_of(b: u8) -> (r: usize)
    ensures
        r == lead_width(b),
{
    if b < 0x80 {
        1
    } else if b < 0xE0 {
        2
    } else if b < 0xF0 {
        3
    } else {
        4
    }
}

/// The number of UTF-16 code units of `c`: two for chars outside the basic plane.
pub open spec fn char_utf16_width(c: char) -> nat {
    if c as u32 >= 0x10000 {
        2
    } else {
        1
    }
}

/// The number of UTF-16 code units of the text `cs`.
pub open spec fn utf16_len(cs: Seq<char>) -> nat
    decreases cs.len(),
{
    if cs.len() == 0 {
        0
    } else {
        utf16_len(cs.drop_last()) + char_utf16_width(cs.last())
    }
}

/// UTF-16 lengths add up over a concatenation.
pub proof fn lemma_utf16_len_concat(x: Seq<char>, y: Seq<char>)
    ensures
        utf16_len(x + y) == utf16_len(x) + utf16_len(y),
    decreases y.len(),
{
    if y.len() == 0 {
        assert(x + y =~= x);
    } else {
        assert((x + y).drop_last() =~= x + y.drop_last());
        assert((x + y).last() == y.last());
        lemma_utf16_len_concat(x, y.drop_last());
    }
}

/// The byte offset of char index `i` in the UTF-8 encoding of `cs`.
pub open spec fn byte_offset(cs: Seq<char>, i: int) -> int {
    encode_utf8(cs.take(i)).len() as int
}

/// Encoding distributes over concatenation.
pub proof fn lemma_encode_concat(a: Seq<char>, b: Seq<char>)
    ensures
        encode_utf8(a + b) == encode_utf8(a) + encode_utf8(b),
    decreases a.len(),
{
    if a.len() == 0 {
        assert(a + b =~= b);
        assert(encode_utf8(a) + encode_utf8(b) =~= encode_utf8(b));
    } else {
        assert((a + b).drop_first() =~= a.drop_first() + b);
        assert((a + b)[0] == a[0]);
        lemma_encode_concat(a.drop_first(), b);
        assert(encode_utf8(a + b) =~= encode_scalar(a[0] as u32) + (encode_utf8(a.drop_first())
            + encode_utf8(b)));
    }
}

/// The encoding of a single char is its scalar encoding.
pub proof fn lemma_encode_single(c: char)
    ensures
        encode_utf8(seq![c]) == encode_scalar(c as u32),
{
    assert(seq![c].drop_first() =~= Seq::<char>::empty());
    assert(encode_utf8(seq![c]) =~= encode_scalar(c as u32) + encode_utf8(Seq::<char>::empty()));
}

/// The encoding of a flattened sequence of texts is the flattening of their encodings.
pub proof fn lemma_encode_flatten(css: Seq<Seq<char>>)
    ensures
        encode_utf8(css.flatten()) == css.map_values(|s: Seq<char>| encode_utf8(s)).flatten(),
    decreases css.len(),
{
    let f = |s: Seq<char>| encode_utf8(s);
    if css.len() == 0 {
        assert(css.map_values(f) =~= Seq::<Seq<u8>>::empty());
    } else {
        lemma_encode_concat(css.first(), css.drop_first().flatten());
        lemma_encode_flatten(css.drop_first());
        assert(css.map_values(f).drop_first() =~= css.drop_first().map_values(f));
    }
}

/// Facts about the UTF-8 encoding of one char, proved on its bits.
proof fn lemma_scalar_bytes_width_1(v: u32)
    by (bit_vector)
    requires
        v <= 0x7F,
    ensures
        ((v & 0x7F) as u8) as u32 == v,
        ((v & 0x7F) as u8) < 0x80,
{
}

proof fn lemma_scalar_bytes_width_2(v: u32)
    by (bit_vector)
    requires
        0x80 <= v <= 0x7FF,
    ensures
        0xC0 <= (0xC0 | ((v >> 6) & 0x1F) as u8) <= 0xDF,
        0x80 <= (0x80 | (v & 0x3F) as u8) <= 0xBF,
        ((0xC0 | ((v >> 6) & 0x1F) as u8) == 0xC2 && (0x80 | (v & 0x3F) as u8) == 0x85) <==> v
            == 0x85,
{
}

proof fn lemma_scalar_bytes_width_3(v: u32)
    by (bit_vector)
    requires
        0x800 <= v <= 0xFFFF,
    ensures
        0xE0 <= (0xE0 | ((v >> 12) & 0x0F) as u8) <= 0xEF,
        0x80 <= (0x80 | ((v >> 6) & 0x3F) as u8) <= 0xBF,
        0x80 <= (0x80 | (v & 0x3F) as u8) <= 0xBF,
        ((0xE0 | ((v >> 12) & 0x0F) as u8) == 0xE2 && (0x80 | ((v >> 6) & 0x3F) as u8) == 0x80
            && (0x80 | (v & 0x3F) as u8) == 0xA8) <==> v == 0x2028,
        ((0xE0 | ((v >> 12) & 0x0F) as u8) == 0xE2 && (0x80 | ((v >> 6) & 0x3F) as u8) == 0x80
            && (0x80 | (v & 0x3F) as u8) == 0xA9) <==> v == 0x2029,
{
}

proof fn lemma_scalar_bytes_width_4(v: u32)
    by (bit_vector)
    requires
        0x10000 <= v <= 0x10FFFF,
    ensures
        0xF0 <= (0xF0 | ((v >> 18) & 0x7) as u8) <= 0xF7,
        0x80 <= (0x80 | ((v >> 12) & 0x3F) as u8) <= 0xBF,
        0x80 <= (0x80 | ((v >> 6) & 0x3F) as u8) <= 0xBF,
        0x80 <= (0x80 | (v & 0x3F) as u8) <= 0xBF,
{
}

/// The shape of the UTF-8 encoding of a char: a lead byte that gives the width,
/// then continuation bytes; the lead byte is at least 0xF0 exactly for chars
/// outside the basic plane.
pub proof fn lemma_scalar_shape(c: char)
    ensures
        ({
            let e = encode_scalar(c as u32);
            &&& 1 <= e.len() <= 4
            &&& lead_width(e[0]) == e.len()
            &&& (e[0] >= 0xF0) == (c as u32 >= 0x10000)
            &&& !is_continuation_byte(e[0])
            &&& forall|i: int| 1 <= i < e.len() ==> #[trigger] is_continuation_byte(e[i])
            &&& (e.len() == 1 ==> e[0] as u32 == c as u32)
            &&& (e.len() == 2 ==> ((e[0] == 0xC2 && e[1] == 0x85) <==> c as u32 == 0x85))
            &&& (e.len() == 3 ==> ((e[0] == 0xE2 && e[1] == 0x80 && e[2] == 0xA8) <==> c as u32
                == 0x2028))
            &&& (e.len() == 3 ==> ((e[0] == 0xE2 && e[1] == 0x80 && e[2] == 0xA9) <==> c as u32
                == 0x2029))
        }),
{
    let v = c as u32;
    assert(is_scalar(v));
    if has_width_1_encoding(v) {
        lemma_scalar_bytes_width_1(v);
    } else if has_width_2_encoding(v) {
        lemma_scalar_bytes_width_2(v);
    } else if has_width_3_encoding(v) {
        lemma_scalar_bytes_width_3(v);
    } else {
        lemma_scalar_bytes_width_4(v);
    }
}

/// Walking one char forward in the bytes of `cs`: from the byte offset of char `k`,
/// the lead byte found there gives the width of char `k`, and whether it needs
/// two UTF-16 code units.
pub proof fn lemma_char_walk(cs: Seq<char>, k: int)
    requires
        0 <= k < cs.len(),
    ensures
        ({
            let b = encode_utf8(cs);
            let p = byte_offset(cs, k);
            &&& 0 <= p < b.len()
            &&& byte_offset(cs, k + 1) == p + lead_width(b[p])
            &&& byte_offset(cs, k + 1) <= b.len()
            &&& (b[p] >= 0xF0) == (cs[k] as u32 >= 0x10000)
            &&& b.subrange(p, byte_offset(cs, k + 1)) == encode_scalar(cs[k] as u32)
            &&& utf16_len(cs.take(k + 1)) == utf16_len(cs.take(k)) + char_utf16_width(cs[k])
        }),
{
    let t = cs.take(k);
    let t1 = cs.take(k + 1);
    let r = cs.skip(k + 1);
    assert(t1 =~= t + seq![cs[k]]);
    assert(cs =~= t1 + r);
    lemma_encode_concat(t, seq![cs[k]]);
    lemma_encode_concat(t1, r);
    lemma_encode_single(cs[k]);
    lemma_scalar_shape(cs[k]);
    let b = encode_utf8(cs);
    let p = byte_offset(cs, k);
    let e = encode_scalar(cs[k] as u32);
    assert(b =~= encode_utf8(t) + e + encode_utf8(r));
    assert(b[p] == e[0]);
    assert(b.subrange(p, p + e.len()) =~= e);
    assert(t1.drop_last() =~= t);
}

/// Each char takes at most four bytes.
pub proof fn lemma_encode_len_le(cs: Seq<char>)
    ensures
        encode_utf8(cs).len() <= 4 * cs.len(),
    decreases cs.len(),
{
    if cs.len() > 0 {
        lemma_scalar_shape(cs[0]);
        lemma_encode_len_le(cs.drop_first());
    }
}

/// Byte offsets of char indexes grow with the index and stay within the encoding.
pub proof fn lemma_byte_offset_mono(cs: Seq<char>, i: int, j: int)
    requires
        0 <= i <= j <= cs.len(),
    ensures
        byte_offset(cs, i) <= byte_offset(cs, j) <= encode_utf8(cs).len(),
        i < j ==> byte_offset(cs, i) < byte_offset(cs, j),
        byte_offset(cs, 0) == 0,
        byte_offset(cs, cs.len() as int) == encode_utf8(cs).len(),
    decreases j - i,
{
    assert(cs.take(0) =~= Seq::<char>::empty());
    assert(cs.take(cs.len() as int) =~= cs);
    if i < j {
        lemma_char_walk(cs, j - 1);
        lemma_byte_offset_mono(cs, i, j - 1);
    } else {
        lemma_byte_offset_mono_end(cs, j);
    }
}

proof fn lemma_byte_offset_mono_end(cs: Seq<char>, j: int)
    requires
        0 <= j <= cs.len(),
    ensures
        byte_offset(cs, j) <= encode_utf8(cs).len(),
{
    lemma_encode_concat(cs.take(j), cs.skip(j));
    assert(cs =~= cs.take(j) + cs.skip(j));
}

/// The bytes of a char range are the encoding of that range.
pub proof fn lemma_encode_subrange(cs: Seq<char>, i: int, j: int)
    requires
        0 <= i <= j <= cs.len(),
    ensures
        encode_utf8(cs).subrange(byte_offset(cs, i), byte_offset(cs, j)) == encode_utf8(
            cs.subrange(i, j),
        ),
{
    let a = cs.take(i);
    let m = cs.subrange(i, j);
    let z = cs.skip(j);
    assert(cs =~= a + m + z);
    assert(cs.take(j) =~= a + m);
    lemma_encode_concat(a, m);
    lemma_encode_concat(a + m, z);
    let b = encode_utf8(cs);
    assert(b =~= encode_utf8(a) + encode_utf8(m) + encode_utf8(z));
    assert(b.subrange(byte_offset(cs, i), byte_offset(cs, j)) =~= encode_utf8(m));
}

/// UTF-16 lengths of prefixes grow strictly with the prefix length.
pub proof fn lemma_utf16_prefix_strict(cs: Seq<char>, i: int, j: int)
    requires
        0 <= i < j <= cs.len(),
    ensures
        utf16_len(cs.take(i)) < utf16_len(cs.take(j)),
    decreases j - i,
{
    lemma_char_walk(cs, j - 1);
    if i < j - 1 {
        lemma_utf16_prefix_strict(cs, i, j - 1);
    }
}

/// A text has no more UTF-16 code units than UTF-8 bytes, and no more chars than bytes.
pub proof fn lemma_utf16_le_bytes(cs: Seq<char>, k: int)
    requires
        0 <= k <= cs.len(),
    ensures
        k <= utf16_len(cs.take(k)) <= byte_offset(cs, k),
    decreases k,
{
    assert(cs.take(0) =~= Seq::<char>::empty());
    if k > 0 {
        lemma_utf16_le_bytes(cs, k - 1);
        lemma_char_walk(cs, k - 1);
    }
}

// ------------------------------------------------------------------
// Line breaks.

/// The chars that end a line: LF, VT, FF, CR, NEL, LS and PS.
pub open spec fn is_line_break(c: char) -> bool {
    ||| c == '\n'
    ||| c == '\u{0B}'
    ||| c == '\u{0C}'
    ||| c == '\r'
    ||| c == '\u{85}'
    ||| c == '\u{2028}'
    ||| c == '\u{2029}'
}

/// The number of line breaks in `cs`, where a CR directly followed by an LF is one break.
pub open spec fn line_breaks(cs: Seq<char>) -> nat
    decreases cs.len(),
{
    if cs.len() == 0 {
        0
    } else if cs[0] == '\r' && cs.len() > 1 && cs[1] == '\n' {
        1 + line_breaks(cs.skip(2))
    } else if is_line_break(cs[0]) {
        1 + line_breaks(cs.skip(1))
    } else {
        line_breaks(cs.skip(1))
    }
}

/// The number of lines of `cs`: every break ends a line, and the (possibly empty)
/// text after the last break is a line too.
pub open spec fn line_count(cs: Seq<char>) -> nat {
    line_breaks(cs) + 1
}

/// The length in chars of the first line of `cs`, its line break included;
/// all of `cs` when it holds no break.
pub open spec fn first_line_len(cs: Seq<char>) -> nat
    decreases cs.len(),
{
    if cs.len() == 0 {
        0
    } else if cs[0] == '\r' && cs.len() > 1 && cs[1] == '\n' {
        2
    } else if is_line_break(cs[0]) {
        1
    } else {
        1 + first_line_len(cs.skip(1))
    }
}

/// The byte-level line-break recognizer: LF, VT, FF, CR (with a following LF
/// taken into the same break), C2 85 (NEL), E2 80 A8 (LS) and E2 80 A9 (PS).
pub open spec fn scan_breaks(b: Seq<u8>) -> nat
    decreases b.len(),
{
    if b.len() == 0 {
        0
    } else if b[0] == 0x0A || b[0] == 0x0B || b[0] == 0x0C {
        1 + scan_breaks(b.skip(1))
    } else if b[0] == 0x0D {
        if b.len() > 1 && b[1] == 0x0A {
            1 + scan_breaks(b.skip(2))
        } else {
            1 + scan_breaks(b.skip(1))
        }
    } else if b[0] == 0xC2 && b.len() > 1 && b[1] == 0x85 {
        1 + scan_breaks(b.skip(2))
    } else if b[0] == 0xE2 && b.len() > 2 && b[1] == 0x80 && (b[2] == 0xA8 || b[2] == 0xA9) {
        1 + scan_breaks(b.skip(3))
    } else {
        scan_breaks(b.skip(1))
    }
}

/// The byte length of the first line found by the byte-level recognizer.
pub open spec fn scan_first_line(b: Seq<u8>) -> nat
    decreases b.len(),
{
    if b.len() == 0 {
        0
    } else if b[0] == 0x0A || b[0] == 0x0B || b[0] == 0x0C {
        1
    } else if b[0] == 0x0D {
        if b.len() > 1 && b[1] == 0x0A {
            2
        } else {
            1
        }
    } else if b[0] == 0xC2 && b.len() > 1 && b[1] == 0x85 {
        2
    } else if b[0] == 0xE2 && b.len() > 2 && b[1] == 0x80 && (b[2] == 0xA8 || b[2] == 0xA9) {
        3
    } else {
        1 + scan_first_line(b.skip(1))
    }
}

/// A continuation byte is never part of a break pattern's start.
proof fn lemma_scan_skip_continuation(b: Seq<u8>, n: int)
    requires
        0 <= n <= b.len(),
        forall|i: int| 0 <= i < n ==> #[trigger] is_continuation_byte(b[i]),
    ensures
        scan_breaks(b) == scan_breaks(b.skip(n)),
        scan_first_line(b) == n + scan_first_line(b.skip(n)),
    decreases n,
{
    if n > 0 {
        assert(is_continuation_byte(b[0]));
        assert(b.skip(1).skip(n - 1) =~= b.skip(n));
        lemma_scan_skip_continuation(b.skip(1), n - 1);
    } else {
        assert(b.skip(0) =~= b);
    }
}

/// A byte that encodes a char on its own is one of LF, VT, FF, CR exactly when the char is.
proof fn lemma_ascii_code(c: char, x: u8)
    requires
        x as u32 == c as u32,
    ensures
        (x == 0x0A) == (c == '\n'),
        (x == 0x0B) == (c == '\u{0B}'),
        (x == 0x0C) == (c == '\u{0C}'),
        (x == 0x0D) == (c == '\r'),
{
    char_u32_cast(c, x as u32);
}

/// What the recognizer does on the encoding of `cs` after reading its first char.
proof fn lemma_scan_head(cs: Seq<char>)
    requires
        cs.len() > 0,
    ensures
        ({
            let c = cs[0];
            let b = encode_utf8(cs);
            let w = encode_scalar(c as u32).len() as int;
            let rest = encode_utf8(cs.skip(1));
            &&& byte_offset(cs, 1) == w
            &&& (!is_line_break(c) ==> scan_breaks(b) == scan_breaks(rest) && scan_first_line(b)
                == w + scan_first_line(rest))
            &&& (is_line_break(c) && c != '\r' ==> scan_breaks(b) == 1 + scan_breaks(rest)
                && scan_first_line(b) == w)
            &&& (c == '\r' && !(cs.len() > 1 && cs[1] == '\n') ==> scan_breaks(b) == 1
                + scan_breaks(rest) && scan_first_line(b) == 1)
            &&& (c == '\r' && cs.len() > 1 && cs[1] == '\n' ==> scan_breaks(b) == 1
                + scan_breaks(encode_utf8(cs.skip(2))) && scan_first_line(b) == 2
                && byte_offset(cs, 2) == 2)
        }),
{
    let c = cs[0];
    let rest = cs.skip(1);
    let b = encode_utf8(cs);
    let e = encode_scalar(c as u32);
    let w = e.len() as int;
    lemma_scalar_shape(c);
    assert(cs =~= seq![c] + rest);
    lemma_encode_concat(seq![c], rest);
    lemma_encode_single(c);
    assert(b =~= e + encode_utf8(rest));
    assert(cs.take(1) =~= seq![c]);
    if w == 1 {
        lemma_scan_head_ascii(cs);
    } else {
        assert forall|i: int| 1 <= i < w implies #[trigger] is_continuation_byte(b[i]) by {
            assert(b[i] == e[i]);
        }
        assert(b.skip(1).skip(w - 1) =~= encode_utf8(rest));
        lemma_scan_skip_continuation(b.skip(1), w - 1);
        assert(b[0] == e[0]);
        if w == 2 {
            assert(b[1] == e[1]);
            assert(b.skip(2) =~= encode_utf8(rest));
            char_u32_cast(c, c as u32);
            if c as u32 == 0x85 {
                char_u32_cast(c, 0x85u32);
            } else {
                assert(c != '\u{85}');
            }
        } else if w == 3 {
            assert(b[1] == e[1]);
            assert(b[2] == e[2]);
            assert(b.skip(3) =~= encode_utf8(rest));
            if c as u32 == 0x2028 {
                char_u32_cast(c, 0x2028u32);
            } else if c as u32 == 0x2029 {
                char_u32_cast(c, 0x2029u32);
            } else {
                assert(c != '\u{2028}' && c != '\u{2029}');
            }
        } else {
            assert(c as u32 >= 0x10000);
        }
    }
}

/// The recognizer on a first char with a one-byte encoding.
proof fn lemma_scan_head_ascii(cs: Seq<char>)
    requires
        cs.len() > 0,
        encode_scalar(cs[0] as u32).len() == 1,
        encode_utf8(cs) == encode_scalar(cs[0] as u32) + encode_utf8(cs.skip(1)),
    ensures
        ({
            let c = cs[0];
            let b = encode_utf8(cs);
            let rest = encode_utf8(cs.skip(1));
            &&& (!is_line_break(c) ==> scan_breaks(b) == scan_breaks(rest) && scan_first_line(b)
                == 1 + scan_first_line(rest))
            &&& (is_line_break(c) && c != '\r' ==> scan_breaks(b) == 1 + scan_breaks(rest)
                && scan_first_line(b) == 1)
            &&& (c == '\r' && !(cs.len() > 1 && cs[1] == '\n') ==> scan_breaks(b) == 1
                + scan_breaks(rest) && scan_first_line(b) == 1)
            &&& (c == '\r' && cs.len() > 1 && cs[1] == '\n' ==> scan_breaks(b) == 1
                + scan_breaks(encode_utf8(cs.skip(2))) && scan_first_line(b) == 2
                && byte_offset(cs, 2) == 2)
        }),
{
    let c = cs[0];
    let e = encode_scalar(c as u32);
    let b = encode_utf8(cs);
    lemma_scalar_shape(c);
    assert(b[0] == e[0]);
    assert(b[0] as u32 == c as u32);
    lemma_ascii_code(c, b[0]);
    assert(b.skip(1) =~= encode_utf8(cs.skip(1)));
    if cs.len() > 1 {
        let rest = cs.skip(1);
        let d = rest[0];
        let f = encode_scalar(d as u32);
        lemma_scalar_shape(d);
        assert(rest =~= seq![d] + rest.skip(1));
        lemma_encode_concat(seq![d], rest.skip(1));
        lemma_encode_single(d);
        assert(encode_utf8(rest) =~= f + encode_utf8(rest.skip(1)));
        assert(b[1] == f[0]);
        assert(rest.skip(1) =~= cs.skip(2));
        if c == '\r' && d == '\n' {
            assert(b[1] == 0x0A);
            assert(b.skip(2) =~= encode_utf8(cs.skip(2)));
            assert(cs.take(2) =~= seq![c] + seq![d]);
            lemma_encode_concat(seq![c], seq![d]);
            lemma_encode_single(c);
        } else if c == '\r' {
            if f.len() == 1 {
                lemma_ascii_code(d, f[0]);
            }
            assert(b[1] != 0x0A);
        }
    }
}

/// The byte-level recognizer counts exactly the line breaks of the chars encoded,
/// and finds the same first line.
pub proof fn lemma_scan_breaks_encode(cs: Seq<char>)
    ensures
        scan_breaks(encode_utf8(cs)) == line_breaks(cs),
        scan_first_line(encode_utf8(cs)) == byte_offset(cs, first_line_len(cs) as int),
        first_line_len(cs) <= cs.len(),
        cs.len() > 0 ==> first_line_len(cs) > 0,
        line_breaks(cs) > 0 ==> line_breaks(cs) == 1 + line_breaks(
            cs.skip(first_line_len(cs) as int),
        ),
        line_breaks(cs) == 0 ==> first_line_len(cs) == cs.len(),
    decreases cs.len(),
{
    if cs.len() == 0 {
        assert(cs.take(0) =~= cs);
        return;
    }
    let c = cs[0];
    let rest = cs.skip(1);
    lemma_scan_head(cs);
    lemma_scan_breaks_encode(rest);
    if c == '\r' && cs.len() > 1 && cs[1] == '\n' {
        lemma_scan_breaks_encode(cs.skip(2));
    } else if !is_line_break(c) {
        let k = first_line_len(rest) as int;
        assert(cs.take(1 + k) =~= seq![c] + rest.take(k));
        lemma_encode_concat(seq![c], rest.take(k));
        lemma_encode_single(c);
        assert(rest.skip(k) =~= cs.skip(1 + k));
    }
}

/// Telling a line break from the bytes of one char: the char at index `k` of
/// `cs`, whose encoding starts at byte `p` and is `w` bytes long.
pub proof fn lemma_char_break_bytes(cs: Seq<char>, k: int)
    requires
        0 <= k < cs.len(),
    ensures
        ({
            let b = encode_utf8(cs);
            let p = byte_offset(cs, k);
            let w = lead_width(b[p]);
            &&& p + w <= b.len()
            &&& (cs[k] == '\r') == (w == 1 && b[p] == 0x0D)
            &&& (cs[k] == '\n') == (w == 1 && b[p] == 0x0A)
            &&& is_line_break(cs[k]) == ((w == 1 && 0x0A <= b[p] <= 0x0D) || (w == 2 && b[p]
                == 0xC2 && b[p + 1] == 0x85) || (w == 3 && b[p] == 0xE2 && b[p + 1] == 0x80 && (b[p
                + 2] == 0xA8 || b[p + 2] == 0xA9)))
        }),
{
    let c = cs[k];
    let b = encode_utf8(cs);
    let p = byte_offset(cs, k);
    let e = encode_scalar(c as u32);
    lemma_char_walk(cs, k);
    lemma_scalar_shape(c);
    let w = e.len() as int;
    assert(b.subrange(p, p + w) == e);
    assert forall|i: int| 0 <= i < w implies b[p + i] == e[i] by {
        assert(b.subrange(p, p + w)[i] == b[p + i]);
    }
    char_u32_cast(c, c as u32);
    if w == 1 {
        lemma_ascii_code(c, b[p]);
    } else if w == 2 {
        if c as u32 == 0x85 {
            char_u32_cast(c, 0x85u32);
        }
    } else if w == 3 {
        if c as u32 == 0x2028 {
            char_u32_cast(c, 0x2028u32);
        } else if c as u32 == 0x2029 {
            char_u32_cast(c, 0x2029u32);
        }
    }
}

/// Line breaks of a concatenation: those of each part, less one when the first
/// part ends with a CR and the second starts with an LF, which then form one break.
pub proof fn lemma_line_breaks_concat(x: Seq<char>, y: Seq<char>)
    ensures
        line_breaks(x + y) + (if x.len() > 0 && y.len() > 0 && x.last() == '\r' && y[0] == '\n' {
            1int
        } else {
            0int
        }) == line_breaks(x) + line_breaks(y),
    decreases x.len(),
{
    if x.len() == 0 {
        assert(x + y =~= y);
    } else if x.len() == 1 {
        assert((x + y)[0] == x[0]);
        assert((x + y).skip(1) =~= y);
        assert(x.skip(1) =~= Seq::<char>::empty());
        if y.len() > 0 {
            assert((x + y)[1] == y[0]);
            assert((x + y).skip(2) =~= y.skip(1));
        }
    } else {
        assert((x + y)[0] == x[0]);
        assert((x + y)[1] == x[1]);
        if x[0] == '\r' && x[1] == '\n' {
            assert((x + y).skip(2) =~= x.skip(2) + y);
            lemma_line_breaks_concat(x.skip(2), y);
            if x.len() > 2 {
                assert(x.skip(2).last() == x.last());
            }
        } else {
            assert((x + y).skip(1) =~= x.skip(1) + y);
            lemma_line_breaks_concat(x.skip(1), y);
            assert(x.skip(1).last() == x.last());
        }
    }
}

/// A text never has more line breaks than chars.
pub proof fn lemma_line_breaks_le_len(x: Seq<char>)
    ensures
        line_breaks(x) <= x.len(),
        x.len() > 0 && is_line_break(x[0]) ==> line_breaks(x) >= 1,
    decreases x.len(),
{
    if x.len() > 0 {
        lemma_line_breaks_le_len(x.skip(1));
        if x.len() > 1 {
            lemma_line_breaks_le_len(x.skip(2));
        }
    }
}

/// The first byte of an encoding is LF exactly when the first char is LF, and its
/// last byte is CR exactly when the last char is CR.
pub proof fn lemma_lf_cr_bytes(cs: Seq<char>)
    requires
        cs.len() > 0,
    ensures
        (encode_utf8(cs)[0] == 0x0A) == (cs[0] == '\n'),
        (encode_utf8(cs).last() == 0x0D) == (cs.last() == '\r'),
{
    let b = encode_utf8(cs);
    let n = cs.len() as int;
    lemma_char_break_bytes(cs, 0);
    lemma_byte_offset_mono(cs, 0, n);
    lemma_char_break_bytes(cs, n - 1);
    lemma_char_walk(cs, n - 1);
    lemma_scalar_shape(cs[n - 1]);
    lemma_byte_offset_mono(cs, n, n);
    let p = byte_offset(cs, n - 1);
    let e = encode_scalar(cs[n - 1] as u32);
    assert(b.subrange(p, p + e.len()) == e);
    assert(b.last() == b.subrange(p, p + e.len())[e.len() - 1]);
    if e.len() > 1 {
        assert(is_continuation_byte(e[e.len() - 1]));
    }
}

/// The recognizer never finds more breaks than there are bytes.
pub proof fn lemma_scan_breaks_le_len(b: Seq<u8>)
    ensures
        scan_breaks(b) <= b.len(),
    decreases b.len(),
{
    if b.len() > 0 {
        lemma_scan_breaks_le_len(b.skip(1));
        if b.len() > 1 {
            lemma_scan_breaks_le_len(b.skip(2));
        }
        if b.len() > 2 {
            lemma_scan_breaks_le_len(b.skip(3));
        }
    }
}

// ------------------------------------------------------------------
// Char boundaries and substrings.

/// Encoding is injective: equal bytes come from equal texts.
pub proof fn lemma_encode_injective(a: Seq<char>, b: Seq<char>)
    requires
        encode_utf8(a) == encode_utf8(b),
    ensures
        a == b,
{
    encode_utf8_decode_utf8(a);
    encode_utf8_decode_utf8(b);
}

/// The byte offset of every char index is a char boundary of the encoding.
pub proof fn lemma_byte_offset_is_char_boundary(cs: Seq<char>, i: int)
    requires
        0 <= i <= cs.len(),
    ensures
        is_char_boundary(encode_utf8(cs), byte_offset(cs, i)),
    decreases i,
{
    let b = encode_utf8(cs);
    encode_utf8_valid_utf8(cs);
    if i == 0 {
        assert(cs.take(0) =~= Seq::<char>::empty());
    } else {
        let c = cs[0];
        let rest = cs.drop_first();
        encode_utf8_first_scalar(cs);
        lemma_encode_concat(seq![c], rest);
        lemma_encode_single(c);
        assert(cs =~= seq![c] + rest);
        let w = encode_scalar(c as u32).len() as int;
        assert(pop_first_scalar(b) =~= encode_utf8(rest));
        assert(cs.take(i) =~= seq![c] + rest.take(i - 1));
        lemma_encode_concat(seq![c], rest.take(i - 1));
        lemma_byte_offset_is_char_boundary(rest, i - 1);
        lemma_byte_offset_mono(rest, i - 1, rest.len() as int);
        assert(byte_offset(cs, i) == w + byte_offset(rest, i - 1));
    }
}

/// Char boundaries of a suffix are the char boundaries of the whole, shifted.
pub proof fn lemma_char_boundary_suffix(b: Seq<u8>, lo: int, hi: int)
    requires
        valid_utf8(b),
        0 <= lo <= hi <= b.len(),
        is_char_boundary(b, lo),
        is_char_boundary(b, hi),
    ensures
        valid_utf8(b.subrange(lo, b.len() as int)),
        is_char_boundary(b.subrange(lo, b.len() as int), hi - lo),
{
    let t = b.subrange(lo, b.len() as int);
    valid_utf8_split(b, lo);
    is_char_boundary_start_end_of_seq(t);
    if hi - lo > 0 && hi < b.len() {
        is_char_boundary_iff_not_is_continuation_byte(b, hi);
        is_char_boundary_iff_not_is_continuation_byte(t, hi - lo);
        assert(t[hi - lo] == b[hi]);
    }
}

/// The byte after a one-byte char is a char boundary.
pub proof fn lemma_boundary_after_ascii(b: Seq<u8>, i: int)
    requires
        valid_utf8(b),
        0 <= i < b.len(),
        is_char_boundary(b, i),
        b[i] < 0x80,
    ensures
        is_char_boundary(b, i + 1),
{
    is_char_boundary_start_end_of_seq(b);
    if i + 1 < b.len() {
        let t = b.subrange(i, b.len() as int);
        valid_utf8_split(b, i);
        assert(t[0] == b[i]);
        assert(t[1] == b[i + 1]);
        reveal_with_fuel(is_char_boundary, 2);
        assert(length_of_first_scalar(t) == 1);
        is_char_boundary_start_end_of_seq(pop_first_scalar(t));
        assert(is_char_boundary(t, 1));
        is_char_boundary_iff_not_is_continuation_byte(t, 1);
        is_char_boundary_iff_not_is_continuation_byte(b, i + 1);
    }
}

/// The text between two char boundaries of `s`, given by their byte offsets.
pub fn substr(s: &str, lo: usize, hi: usize) -> (r: &str)
    requires
        lo <= hi <= s.spec_bytes().len(),
        is_char_boundary(s.spec_bytes(), lo as int),
        is_char_boundary(s.spec_bytes(), hi as int),
    ensures
        r.spec_bytes() == s.spec_bytes().subrange(lo as int, hi as int),
{
    proof {
        encode_utf8_valid_utf8(s@);
        lemma_char_boundary_suffix(s.spec_bytes(), lo as int, hi as int);
    }
    let (_, tail) = s.split_at(lo);
    let (mid, _) = tail.split_at(hi - lo);
    assert(mid.spec_bytes() =~= s.spec_bytes().subrange(lo as int, hi as int));
    mid
}

} // verus!
