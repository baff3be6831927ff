//! The logic of the property runner: witness replay on canonical inputs, the
//! choice of a property by name, running every property in turn, and JSON string
//! quoting for its report.

use vstd::prelude::*;
use vstd::string::*;
use vstd::utf8::*;

use crate::etna::{
    property_lines_match_model, property_rope_eq_chunk_invariant,
    property_rope_hash_chunk_invariant, property_utf16_char_roundtrip, PropertyResult,
};
use crate::text::{
    byte_offset, lead_width_of, lemma_byte_offset_is_char_boundary, lemma_byte_offset_mono,
    lemma_char_walk, lemma_encode_injective, lemma_encode_len_le, lemma_encode_single,
    lemma_scalar_shape, substr,
};

verus! {

// --------------------------------------------------------------------
// Deterministic witness replay.

/// The outcome of a property as a `Result`: a pass or a discard is `Ok`, a
/// failure is its message.
pub fn to_err(r: PropertyResult) -> (res: Result<(), String>)
    ensures
        res is Ok <==> !(r is Fail),
        r is Fail ==> res == Err::<(), String>(r->Fail_0),
{
    match r {
        PropertyResult::Pass | PropertyResult::Discard => Ok(()),
        PropertyResult::Fail(m) => Err(m),
    }
}

/// The empty text.
pub fn canonical_empty_text() -> (r: String)
    ensures
        r@ == Seq::<char>::empty(),
{
    String::new()
}

/// A short text of alternating ASCII and Latin-1 chars.
pub fn canonical_non_ascii_text() -> (r: String)
    ensures
        r@ == "a\u{e9}a\u{e9}a\u{e9}a\u{e9}a\u{e9}a\u{e9}a\u{e9}a\u{e9}a\u{e9}"@,
{
    String::from_str("a\u{e9}a\u{e9}a\u{e9}a\u{e9}a\u{e9}a\u{e9}a\u{e9}a\u{e9}a\u{e9}")
}

/// An ASCII text long enough to span several small chunks.
pub fn canonical_ascii_chunking_text() -> (r: String)
    ensures
        r@ == "Hello world, this is a rope that spans multiple chunks."@,
{
    String::from_str("Hello world, this is a rope that spans multiple chunks.")
}

/// Two Latin-1 chars: one UTF-16 code unit but two bytes each.
pub fn canonical_latin1_text() -> (r: String)
    ensures
        r@ == "\u{e9}\u{e9}"@,
{
    String::from_str("\u{e9}\u{e9}")
}

/// The lines property on the canonical empty text.
pub fn check_lines_match_model() -> (r: Result<(), String>)
    ensures
        r is Ok,
{
    to_err(property_lines_match_model(canonical_empty_text()))
}

/// The chunk-comparison property on the canonical non-ASCII text.
pub fn check_rope_eq_chunk_invariant() -> (r: Result<(), String>)
    ensures
        r is Ok,
{
    let text = canonical_non_ascii_text();
    proof {
        reveal_strlit("a\u{e9}a\u{e9}a\u{e9}a\u{e9}a\u{e9}a\u{e9}a\u{e9}a\u{e9}a\u{e9}");
        lemma_encode_len_le(text@);
    }
    to_err(property_rope_eq_chunk_invariant(text, 3, 5))
}

/// The hash property on the canonical ASCII text.
pub fn check_rope_hash_chunk_invariant() -> (r: Result<(), String>)
    ensures
        r is Ok,
{
    let text = canonical_ascii_chunking_text();
    proof {
        reveal_strlit("Hello world, this is a rope that spans multiple chunks.");
        lemma_encode_len_le(text@);
    }
    to_err(property_rope_hash_chunk_invariant(text, 7, 11))
}

/// The UTF-16 round-trip property on the canonical Latin-1 text.
pub fn check_utf16_char_roundtrip() -> (r: Result<(), String>)
    ensures
        r is Ok,
{
    let text = canonical_latin1_text();
    proof {
        reveal_strlit("\u{e9}\u{e9}");
        lemma_encode_len_le(text@);
    }
    to_err(property_utf16_char_roundtrip(text))
}

// --------------------------------------------------------------------
// Choosing a property by name.

/// Whether two strs hold the same text.
pub fn str_eq(a: &str, b: &str) -> (r: bool)
    ensures
        r == (a@ == b@),
{
    let x = a.as_bytes();
    let y = b.as_bytes();
    if x.len() != y.len() {
        return false;
    }
    let n = x.len();
    for i in 0..n
        invariant
            n == x@.len(),
            n == y@.len(),
            x@ == a.spec_bytes(),
            y@ == b.spec_bytes(),
            x@.take(i as int) == y@.take(i as int),
    {
        if x[i] != y[i] {
            proof {
                if a@ == b@ {
                    assert(x@[i as int] == y@[i as int]);
                }
            }
            return false;
        }
        proof {
            assert(x@.take(i + 1) =~= x@.take(i as int).push(x@[i as int]));
            assert(y@.take(i + 1) =~= y@.take(i as int).push(y@[i as int]));
        }
    }
    proof {
        assert(x@.take(n as int) =~= x@);
        assert(y@.take(n as int) =~= y@);
        lemma_encode_injective(a@, b@);
    }
    true
}

/// The names of the properties that the runner knows.
pub open spec fn is_property_name(s: Seq<char>) -> bool {
    ||| s == "LinesMatchModel"@
    ||| s == "RopeEqChunkInvariant"@
    ||| s == "RopeHashChunkInvariant"@
    ||| s == "Utf16CharRoundtrip"@
}

/// Replays the witness of the property named `property` on its canonical
/// input; `None` for a name that names no property.
pub fn etna_check(property: &str) -> (r: Option<Result<(), String>>)
    ensures
        r is None <==> !is_property_name(property@),
        r is Some ==> r->0 is Ok,
{
    if str_eq(property, "LinesMatchModel") {
        Some(check_lines_match_model())
    } else if str_eq(property, "RopeEqChunkInvariant") {
        Some(check_rope_eq_chunk_invariant())
    } else if str_eq(property, "RopeHashChunkInvariant") {
        Some(check_rope_hash_chunk_invariant())
    } else if str_eq(property, "Utf16CharRoundtrip") {
        Some(check_utf16_char_roundtrip())
    } else {
        None
    }
}

// --------------------------------------------------------------------
// Running every property.

/// What a run measured: the inputs tried and the time taken, in microseconds.
#[derive(Clone, Copy)]
pub struct Metrics {
    pub inputs: u64,
    pub elapsed_us: u128,
}

impl Default for Metrics {
    /// No inputs, no time.
    fn default() -> (r: Metrics)
        ensures
            r.inputs == 0,
            r.elapsed_us == 0,
    {
        Metrics { inputs: 0, elapsed_us: 0 }
    }
}

impl Metrics {
    /// The measures of two runs added up.
    pub fn combine(self, other: Metrics) -> (r: Metrics)
        requires
            self.inputs + other.inputs <= u64::MAX,
            self.elapsed_us + other.elapsed_us <= u128::MAX,
        ensures
            r.inputs == self.inputs + other.inputs,
            r.elapsed_us == self.elapsed_us + other.elapsed_us,
    {
        Metrics {
            inputs: self.inputs + other.inputs,
            elapsed_us: self.elapsed_us + other.elapsed_us,
        }
    }
}

/// What running one property gives: its verdict and its measures.
pub type Outcome = (Result<(), String>, Metrics);

/// The names of the properties that the runner knows, in the order it runs them.
pub open spec fn property_names_spec() -> Seq<Seq<char>> {
    seq![
        "LinesMatchModel"@,
        "RopeEqChunkInvariant"@,
        "RopeHashChunkInvariant"@,
        "Utf16CharRoundtrip"@,
    ]
}

/// The names of the properties that the runner knows, in the order it runs them.
pub fn property_names() -> (r: Vec<&'static str>)
    ensures
        r@.len() == property_names_spec().len(),
        forall|k: int| 0 <= k < r@.len() ==> (#[trigger] r@[k])@ == property_names_spec()[k],
{
    vec!["LinesMatchModel", "RopeEqChunkInvariant", "RopeHashChunkInvariant", "Utf16CharRoundtrip"]
}

/// The inputs of a sequence of runs, added up.
pub open spec fn total_inputs(outs: Seq<Outcome>) -> int
    decreases outs.len(),
{
    if outs.len() == 0 {
        0
    } else {
        total_inputs(outs.drop_last()) + outs.last().1.inputs
    }
}

/// The time of a sequence of runs, added up.
pub open spec fn total_elapsed(outs: Seq<Outcome>) -> int
    decreases outs.len(),
{
    if outs.len() == 0 {
        0
    } else {
        total_elapsed(outs.drop_last()) + outs.last().1.elapsed_us
    }
}

/// `outs` are the outcomes of the runs that `f` made on the property names `ps`,
/// one after another from the first, up to the first failure; `r` is the verdict
/// of the last run with the measures of all of them added up.
pub open spec fn runs_of<F: FnMut(&str) -> Outcome>(
    f: F,
    outs: Seq<Outcome>,
    ps: Seq<&str>,
    r: Outcome,
) -> bool {
    &&& 0 < outs.len() <= property_names_spec().len()
    &&& ps.len() == outs.len()
    &&& forall|j: int|
        0 <= j < outs.len() ==> (#[trigger] ps[j])@ == property_names_spec()[j] && call_ensures(
            f,
            (ps[j],),
            outs[j],
        )
    &&& forall|j: int| 0 <= j < outs.len() - 1 ==> (#[trigger] outs[j]).0 is Ok
    &&& outs.len() < property_names_spec().len() ==> outs.last().0 is Err
    &&& (r.0 is Ok) == (outs.last().0 is Ok)
    &&& r.0 is Err ==> r.0 == outs.last().0
    &&& r.1.inputs == total_inputs(outs)
    &&& r.1.elapsed_us == total_elapsed(outs)
}

/// Runs `f` on each property name in turn, stopping after the first failure.
/// Returns the verdict of the last run made (so the first failure, if any) and
/// the measures of all the runs made, added up. Each run stays within a quarter
/// of each measure's range, so the four totals cannot overflow.
pub fn run_all<F: FnMut(&str) -> Outcome>(f: F) -> (r: Outcome)
    requires
        forall|p: &str| call_requires(f, (p,)),
        forall|p: &str, o: Outcome|
            call_ensures(f, (p,), o) ==> o.1.inputs <= u64::MAX / 4 && o.1.elapsed_us <= u128::MAX
                / 4,
    ensures
        exists|outs: Seq<Outcome>, ps: Seq<&str>| #[trigger] runs_of(f, outs, ps, r),
{
    let names = property_names();
    let mut total = Metrics::default();
    let ghost mut outs: Seq<Outcome> = Seq::empty();
    let ghost mut ps: Seq<&str> = Seq::empty();
    let mut run = f;
    let n = names.len();
    let mut i: usize = 0;
    while i < n
        invariant
            n == names@.len(),
            n == property_names_spec().len(),
            forall|k: int| 0 <= k < names@.len() ==> (#[trigger] names@[k])@ == property_names_spec()[k],
            run == f,
            forall|p: &str| call_requires(f, (p,)),
            forall|p: &str, o: Outcome|
                call_ensures(f, (p,), o) ==> o.1.inputs <= u64::MAX / 4 && o.1.elapsed_us
                    <= u128::MAX / 4,
            i <= n,
            outs.len() == i,
            ps.len() == i,
            forall|j: int|
                0 <= j < i ==> (#[trigger] ps[j])@ == property_names_spec()[j] && call_ensures(
                    f,
                    (ps[j],),
                    outs[j],
                ),
            forall|j: int| 0 <= j < i ==> (#[trigger] outs[j]).0 is Ok,
            total.inputs == total_inputs(outs),
            total.elapsed_us == total_elapsed(outs),
            total.inputs <= i * (u64::MAX / 4),
            total.elapsed_us <= i * (u128::MAX / 4),
        decreases n - i,
    {
        let p = names[i];
        let (res, m) = run(p);
        total = total.combine(m);
        proof {
            let o = (res, m);
            assert(outs.push(o).drop_last() =~= outs);
            outs = outs.push(o);
            ps = ps.push(p);
        }
        match res {
            Err(e) => {
                let r = (Err(e), total);
                proof {
                    assert(total_inputs(outs) == total.inputs && ps.len() == outs.len());
                    assert(runs_of(f, outs, ps, r));
                }
                return r;
            },
            Ok(()) => {},
        }
        i = i + 1;
    }
    proof {
        assert(outs.last().0 is Ok);
        assert(total_inputs(outs) == total.inputs && ps.len() == outs.len());
        let r: Outcome = (Ok(()), total);
        assert(runs_of(f, outs, ps, r));
    }
    (Ok(()), total)
}

/// Adds `\u{e9}` to a generated text that holds no non-ASCII char, so that every
/// text it gives holds one.
pub fn ensure_non_ascii(s: String) -> (r: String)
    ensures
        r@ == (if is_ascii_chars(s@) {
            s@.push('\u{e9}')
        } else {
            s@
        }),
{
    let mut s = s;
    if s.as_str().is_ascii() {
        proof {
            reveal_strlit("\u{e9}");
        }
        s.append("\u{e9}");
    }
    s
}

// --------------------------------------------------------------------
// JSON strings.

/// The lowercase hex digit of `d` (below 16).
pub open spec fn hex_digit(d: int) -> char {
    if d < 10 {
        (0x30 + d) as char
    } else {
        (0x61 + d - 10) as char
    }
}

/// How one char is written inside a JSON string: quote, backslash, LF, CR and
/// tab by their escapes, other control chars as `\u00XX`, every other char as
/// itself.
pub open spec fn json_escape(c: char) -> Seq<char> {
    if c == '"' {
        seq!['\\', '"']
    } else if c == '\\' {
        seq!['\\', '\\']
    } else if c == '\n' {
        seq!['\\', 'n']
    } else if c == '\r' {
        seq!['\\', 'r']
    } else if c == '\t' {
        seq!['\\', 't']
    } else if (c as u32) < 0x20 {
        seq!['\\', 'u', '0', '0', hex_digit((c as u32 / 16) as int), hex_digit((c as u32 % 16) as int)]
    } else {
        seq![c]
    }
}


/// The one-char string of the hex digit `d`.
fn hex_digit_str(d: u8) -> (r: &'static str)
    requires
        d < 16,
    ensures
        r@ == seq![hex_digit(d as int)],
{
    proof {
        reveal_strlit("0");
        reveal_strlit("1");
        reveal_strlit("2");
        reveal_strlit("3");
        reveal_strlit("4");
        reveal_strlit("5");
        reveal_strlit("6");
        reveal_strlit("7");
        reveal_strlit("8");
        reveal_strlit("9");
        reveal_strlit("a");
        reveal_strlit("b");
        reveal_strlit("c");
        reveal_strlit("d");
        reveal_strlit("e");
        reveal_strlit("f");
    }
    match d {
        0 => "0",
        1 => "1",
        2 => "2",
        3 => "3",
        4 => "4",
        5 => "5",
        6 => "6",
        7 => "7",
        8 => "8",
        9 => "9",
        10 => "a",
        11 => "b",
        12 => "c",
        13 => "d",
        14 => "e",
        _ => "f",
    }
}

/// The text of a JSON string's body: each char as `json_escape` writes it.
pub open spec fn json_body(s: Seq<char>) -> Seq<char> {
    s.map_values(|c: char| json_escape(c)).flatten()
}

/// The JSON string literal of the text `s`.
pub open spec fn json_quoted(s: Seq<char>) -> Seq<char> {
    seq!['"'] + json_body(s) + seq!['"']
}

proof fn lemma_json_body_push(s: Seq<char>, c: char)
    ensures
        json_body(s.push(c)) == json_body(s) + json_escape(c),
{
    let f = |c: char| json_escape(c);
    assert(s.push(c).map_values(f) =~= s.map_values(f).push(json_escape(c)));
    s.map_values(f).lemma_flatten_push(json_escape(c));
}

/// A byte that encodes a char on its own tells which char it is.
proof fn lemma_ascii_char(c: char, x: u8)
    requires
        c as u32 == x as u32,
    ensures
        (c == '"') == (x == 0x22),
        (c == '\\') == (x == 0x5C),
        (c == '\n') == (x == 0x0A),
        (c == '\r') == (x == 0x0D),
        (c == '\t') == (x == 0x09),
{
    char_u32_cast(c, x as u32);
}

/// Quotes `s` as a JSON string literal.
pub fn json_str(s: &str) -> (r: String)
    ensures
        r@ == json_quoted(s@),
{
    let ghost cs = s@;
    let bytes = s.as_bytes();
    let len = bytes.len();
    let mut out = String::new();
    proof {
        reveal_strlit("\"");
    }
    out.append("\"");
    let mut p: usize = 0;
    let ghost mut k: int = 0;
    proof {
        assert(cs.take(0) =~= Seq::<char>::empty());
        assert(json_body(Seq::<char>::empty()) =~= Seq::<char>::empty());
        assert(out@ =~= seq!['"'] + json_body(cs.take(0)));
        lemma_byte_offset_mono(cs, 0, cs.len() as int);
    }
    while p < len
        invariant
            cs == s@,
            bytes@ == encode_utf8(cs),
            len == bytes@.len(),
            0 <= k <= cs.len(),
            p == byte_offset(cs, k),
            (p < len) == (k < cs.len()),
            out@ == seq!['"'] + json_body(cs.take(k)),
        decreases cs.len() - k,
    {
        let ghost c = cs[k];
        let ghost e = encode_scalar(c as u32);
        proof {
            lemma_char_walk(cs, k);
            lemma_scalar_shape(c);
            lemma_byte_offset_mono(cs, k + 1, cs.len() as int);
            lemma_byte_offset_is_char_boundary(cs, k);
            lemma_byte_offset_is_char_boundary(cs, k + 1);
            lemma_encode_single(c);
            assert(cs.take(k + 1) =~= cs.take(k).push(c));
            lemma_json_body_push(cs.take(k), c);
            assert(bytes@[p as int] == e[0]);
            reveal_strlit("\\\"");
            reveal_strlit("\\\\");
            reveal_strlit("\\n");
            reveal_strlit("\\r");
            reveal_strlit("\\t");
            reveal_strlit("\\u000");
            reveal_strlit("\\u001");
        }
        let x = bytes[p];
        let w = lead_width_of(x);
        let ghost before = out@;
        if w == 1 {
            proof {
                lemma_ascii_char(c, x);
            }
            if x == 0x22 {
                out.append("\\\"");
                assert(out@ =~= before + json_escape(c));
            } else if x == 0x5C {
                out.append("\\\\");
                assert(out@ =~= before + json_escape(c));
            } else if x == 0x0A {
                out.append("\\n");
                assert(out@ =~= before + json_escape(c));
            } else if x == 0x0D {
                out.append("\\r");
                assert(out@ =~= before + json_escape(c));
            } else if x == 0x09 {
                out.append("\\t");
                assert(out@ =~= before + json_escape(c));
            } else if x < 0x20 {
                if x < 0x10 {
                    out.append("\\u000");
                } else {
                    out.append("\\u001");
                }
                out.append(hex_digit_str(x % 16));
                proof {
                    assert(hex_digit(0) == '0');
                    assert(hex_digit(1) == '1');
                    assert(json_escape(c) =~= seq!['\\', 'u', '0', '0', hex_digit((x / 16) as int), hex_digit((x % 16) as int)]);
                    assert(out@ =~= before + json_escape(c));
                }
            } else {
                let piece = substr(s, p, p + 1);
                proof {
                    lemma_encode_injective(piece@, seq![c]);
                }
                out.append(piece);
                assert(out@ =~= before + json_escape(c));
            }
        } else {
            let piece = substr(s, p, p + w);
            proof {
                lemma_encode_injective(piece@, seq![c]);
                assert(c as u32 >= 0x80);
            }
            out.append(piece);
            assert(out@ =~= before + json_escape(c));
        }
        proof {
            assert(out@ =~= seq!['"'] + json_body(cs.take(k + 1)));
            k = k + 1;
        }
        p = p + w;
    }
    out.append("\"");
    proof {
        assert(cs.take(k) =~= cs);
    }
    out
}

/// The value of a hex digit of either case.
pub open spec fn hex_value(c: char) -> Option<int> {
    let x = c as u32;
    if 0x30 <= x <= 0x39 {
        Some(x - 0x30)
    } else if 0x61 <= x <= 0x66 {
        Some(x - 0x61 + 10)
    } else if 0x41 <= x <= 0x46 {
        Some(x - 0x41 + 10)
    } else {
        None
    }
}

/// The number that the four hex digits `q[i..i + 4]` write, if they are four hex digits.
pub open spec fn hex4(q: Seq<char>, i: int) -> Option<int> {
    if 0 <= i && i + 4 <= q.len() && hex_value(q[i]) is Some && hex_value(q[i + 1]) is Some
        && hex_value(q[i + 2]) is Some && hex_value(q[i + 3]) is Some {
        Some(
            hex_value(q[i])->0 * 4096 + hex_value(q[i + 1])->0 * 256 + hex_value(q[i + 2])->0 * 16
                + hex_value(q[i + 3])->0,
        )
    } else {
        None
    }
}

/// The char whose code point is `x`.
pub open spec fn scalar_char(x: int) -> char {
    (x as u32) as char
}

/// `c` followed by the text `rest`, where `rest` is one.
pub open spec fn prepend(c: char, rest: Option<Seq<char>>) -> Option<Seq<char>> {
    match rest {
        Some(t) => Some(seq![c] + t),
        None => None,
    }
}

/// The text that the body of a JSON string literal stands for, or `None` where `q`
/// is no such body. Backslash starts an escape: `\"`, `\\`, `\/`, `\b`, `\f`,
/// `\n`, `\r`, `\t`, or `\u` with four hex digits, where a high surrogate must be
/// followed by a `\u` escape of a low one and the pair stands for one char. An
/// unescaped quote or control char is not allowed; any other char stands for itself.
pub open spec fn json_unescape(q: Seq<char>) -> Option<Seq<char>>
    decreases q.len(),
{
    if q.len() == 0 {
        Some(Seq::empty())
    } else if q[0] == '\\' {
        if q.len() < 2 {
            None
        } else if q[1] == '"' {
            prepend('"', json_unescape(q.skip(2)))
        } else if q[1] == '\\' {
            prepend('\\', json_unescape(q.skip(2)))
        } else if q[1] == '/' {
            prepend('/', json_unescape(q.skip(2)))
        } else if q[1] == 'b' {
            prepend('\u{8}', json_unescape(q.skip(2)))
        } else if q[1] == 'f' {
            prepend('\u{c}', json_unescape(q.skip(2)))
        } else if q[1] == 'n' {
            prepend('\n', json_unescape(q.skip(2)))
        } else if q[1] == 'r' {
            prepend('\r', json_unescape(q.skip(2)))
        } else if q[1] == 't' {
            prepend('\t', json_unescape(q.skip(2)))
        } else if q[1] == 'u' && hex4(q, 2) is Some {
            let h = hex4(q, 2)->0;
            if 0xD800 <= h < 0xDC00 {
                if q.len() >= 12 && q[6] == '\\' && q[7] == 'u' && hex4(q, 8) is Some && 0xDC00
                    <= hex4(q, 8)->0 < 0xE000 {
                    prepend(
                        scalar_char(0x10000 + (h - 0xD800) * 0x400 + (hex4(q, 8)->0 - 0xDC00)),
                        json_unescape(q.skip(12)),
                    )
                } else {
                    None
                }
            } else if 0xDC00 <= h < 0xE000 {
                None
            } else {
                prepend(scalar_char(h), json_unescape(q.skip(6)))
            }
        } else {
            None
        }
    } else if q[0] == '"' || (q[0] as u32) < 0x20 {
        None
    } else {
        prepend(q[0], json_unescape(q.skip(1)))
    }
}

/// The text that the JSON string literal `q` stands for, or `None` where `q` is
/// no JSON string literal.
pub open spec fn json_string_value(q: Seq<char>) -> Option<Seq<char>> {
    if q.len() >= 2 && q[0] == '"' && q[q.len() - 1] == '"' {
        json_unescape(q.subrange(1, q.len() - 1))
    } else {
        None
    }
}

proof fn lemma_hex_digit_value(d: int)
    requires
        0 <= d < 16,
    ensures
        hex_value(hex_digit(d)) == Some(d),
        hex_digit(d) as u32 >= 0x30,
{
}

/// Decoding an escaped char gives the char back in front of what follows.
proof fn lemma_unescape_escape(c: char, rest: Seq<char>)
    ensures
        json_unescape(json_escape(c) + rest) == prepend(c, json_unescape(rest)),
        forall|i: int| 0 <= i < json_escape(c).len() ==> (json_escape(c)[i] as u32) >= 0x20,
{
    let e = json_escape(c);
    let q = e + rest;
    if c == '"' || c == '\\' || c == '\n' || c == '\r' || c == '\t' {
        assert(q.skip(2) =~= rest);
    } else if (c as u32) < 0x20 {
        let x = c as u32;
        lemma_hex_digit_value((x / 16) as int);
        lemma_hex_digit_value((x % 16) as int);
        assert(q[2] == '0' && q[3] == '0');
        assert(hex4(q, 2) == Some(x as int));
        assert(q.skip(6) =~= rest);
        char_u32_cast(c, x);
        assert(scalar_char(x as int) == c);
    } else {
        assert(q.skip(1) =~= rest);
    }
}

/// The body that `json_escape` writes decodes back to the text, and holds no
/// control char.
proof fn lemma_json_body_decodes(s: Seq<char>)
    ensures
        json_unescape(json_body(s)) == Some(s),
        forall|i: int| 0 <= i < json_body(s).len() ==> (#[trigger] json_body(s)[i] as u32) >= 0x20,
    decreases s.len(),
{
    let f = |c: char| json_escape(c);
    if s.len() == 0 {
        assert(json_body(s) =~= Seq::<char>::empty());
    } else {
        let t = s.skip(1);
        lemma_json_body_decodes(t);
        assert(s.map_values(f).drop_first() =~= t.map_values(f));
        assert(json_body(s) == json_escape(s[0]) + json_body(t));
        lemma_unescape_escape(s[0], json_body(t));
        assert(seq![s[0]] + t =~= s);
        let e = json_escape(s[0]);
        assert forall|i: int| 0 <= i < json_body(s).len() implies (#[trigger] json_body(s)[i] as u32)
            >= 0x20 by {
            if i >= e.len() {
                assert(json_body(s)[i] == json_body(t)[i - e.len()]);
            }
        }
    }
}

/// What `json_str` writes is a JSON string literal that stands for its input
/// exactly: it starts and ends with a quote, holds no control char, and decodes
/// back to the text it was given.
pub proof fn lemma_json_str_roundtrip(s: Seq<char>)
    ensures
        json_quoted(s).len() >= 2,
        json_quoted(s)[0] == '"',
        json_quoted(s)[json_quoted(s).len() - 1] == '"',
        forall|i: int| 0 <= i < json_quoted(s).len() ==> (#[trigger] json_quoted(s)[i] as u32) >= 0x20,
        json_string_value(json_quoted(s)) == Some(s),
{
    let q = json_quoted(s);
    let b = json_body(s);
    lemma_json_body_decodes(s);
    assert(q.subrange(1, q.len() - 1) =~= b);
    assert forall|i: int| 0 <= i < q.len() implies (#[trigger] q[i] as u32) >= 0x20 by {
        if 1 <= i < q.len() - 1 {
            assert(q[i] == b[i - 1]);
        }
    }
}

// --------------------------------------------------------------------
// The JSON report.

/// The decimal digits of `n`.
pub open spec fn decimal(n: nat) -> Seq<char>
    decreases n,
{
    if n < 10 {
        seq![hex_digit(n as int)]
    } else {
        decimal(n / 10) + seq![hex_digit((n % 10) as int)]
    }
}

/// The number that a string of decimal digits writes.
pub open spec fn digits_value(s: Seq<char>) -> int
    decreases s.len(),
{
    if s.len() == 0 {
        0
    } else {
        digits_value(s.drop_last()) * 10 + (s.last() as u32 - 0x30)
    }
}

/// `decimal(n)` is the usual way of writing `n`: one or more decimal digits, no
/// leading zero, reading back as `n`.
pub proof fn lemma_decimal_reads_back(n: nat)
    ensures
        decimal(n).len() > 0,
        forall|i: int| 0 <= i < decimal(n).len() ==> 0x30 <= (#[trigger] decimal(n)[i] as u32) <= 0x39,
        decimal(n).len() > 1 ==> decimal(n)[0] != '0',
        n > 0 ==> decimal(n)[0] != '0',
        digits_value(decimal(n)) == n,
    decreases n,
{
    if n < 10 {
        lemma_hex_digit_value(n as int);
        assert(hex_digit(n as int) as u32 == 0x30 + n);
        assert(decimal(n).drop_last() =~= Seq::<char>::empty());
        assert(digits_value(Seq::<char>::empty()) == 0);
    } else {
        let h = (n / 10) as nat;
        let d = (n % 10) as int;
        lemma_decimal_reads_back(h);
        lemma_hex_digit_value(d);
        let s = decimal(n);
        assert(s.drop_last() =~= decimal(h));
        assert(s[0] == decimal(h)[0]);
        assert(s.last() == hex_digit(d));
        assert(hex_digit(d) as u32 == 0x30 + d);
        assert(digits_value(s) == digits_value(decimal(h)) * 10 + d);
        assert forall|i: int| 0 <= i < s.len() implies 0x30 <= (#[trigger] s[i] as u32) <= 0x39 by {
            if i < decimal(h).len() {
                assert(s[i] == decimal(h)[i]);
            }
        }
    }
}

/// Appends the decimal digits of `n` to `out`.
pub fn push_decimal(out: &mut String, n: u128)
    ensures
        final(out)@ == old(out)@ + decimal(n as nat),
    decreases n,
{
    if n >= 10 {
        push_decimal(out, n / 10);
    }
    let d = (n % 10) as u8;
    out.append(hex_digit_str(d));
    proof {
        if n >= 10 {
            assert(old(out)@ + decimal((n / 10) as nat) + seq![hex_digit(d as int)] =~= old(out)@
                + decimal(n as nat));
        } else {
            assert(old(out)@ + seq![hex_digit(d as int)] =~= old(out)@ + decimal(n as nat));
        }
    }
}

/// A JSON string literal for `Some` text, `null` for `None`.
pub open spec fn json_or_null(s: Option<Seq<char>>) -> Seq<char> {
    match s {
        Some(t) => json_quoted(t),
        None => "null"@,
    }
}

/// The one-line JSON report of a run.
pub open spec fn json_report_text(
    tool: Seq<char>,
    property: Seq<char>,
    status: Seq<char>,
    inputs: nat,
    elapsed_us: nat,
    counterexample: Option<Seq<char>>,
    error: Option<Seq<char>>,
) -> Seq<char> {
    "{\"status\":"@ + json_quoted(status) + ",\"tests\":"@ + decimal(inputs)
        + ",\"discards\":0,\"time\":"@ + json_quoted(decimal(elapsed_us) + "us"@)
        + ",\"counterexample\":"@ + json_or_null(counterexample) + ",\"error\":"@
        + json_or_null(error) + ",\"tool\":"@ + json_quoted(tool) + ",\"property\":"@
        + json_quoted(property) + "}"@
}

/// The fields of a report, each from its own argument alone: status, tests,
/// discards and time first, then the counterexample as a JSON string or `null`
/// exactly when there is none, then the error likewise, whatever the
/// counterexample, then the tool and the property.
pub proof fn lemma_json_report_fields(
    tool: Seq<char>,
    property: Seq<char>,
    status: Seq<char>,
    inputs: nat,
    elapsed_us: nat,
    counterexample: Option<Seq<char>>,
    error: Option<Seq<char>>,
)
    ensures
        json_report_text(tool, property, status, inputs, elapsed_us, counterexample, error) == "{\"status\":"@
            + json_quoted(status) + ",\"tests\":"@ + decimal(inputs) + ",\"discards\":0,\"time\":"@
            + json_quoted(decimal(elapsed_us) + "us"@) + ",\"counterexample\":"@ + (if counterexample is Some {
            json_quoted(counterexample->0)
        } else {
            "null"@
        }) + ",\"error\":"@ + (if error is Some {
            json_quoted(error->0)
        } else {
            "null"@
        }) + ",\"tool\":"@ + json_quoted(tool) + ",\"property\":"@ + json_quoted(property) + "}"@,
{
}

/// The view of an optional text.
pub open spec fn opt_view(s: Option<&str>) -> Option<Seq<char>> {
    match s {
        Some(t) => Some(t@),
        None => None,
    }
}

/// Appends `s` as a JSON string literal, or `null` for `None`.
fn push_json_or_null(out: &mut String, s: Option<&str>)
    ensures
        final(out)@ == old(out)@ + json_or_null(opt_view(s)),
{
    match s {
        Some(t) => {
            let q = json_str(t);
            out.append(q.as_str());
        },
        None => out.append("null"),
    }
}

/// The one-line JSON report of a run: its status, the inputs tried, the time
/// taken, the counterexample or error if any, the tool and the property.
pub fn json_report(
    tool: &str,
    property: &str,
    status: &str,
    inputs: u64,
    elapsed_us: u128,
    counterexample: Option<&str>,
    error: Option<&str>,
) -> (r: String)
    ensures
        r@ == json_report_text(
            tool@,
            property@,
            status@,
            inputs as nat,
            elapsed_us as nat,
            opt_view(counterexample),
            opt_view(error),
        ),
{
    let mut out = String::new();
    out.append("{\"status\":");
    out.append(json_str(status).as_str());
    out.append(",\"tests\":");
    push_decimal(&mut out, inputs as u128);
    out.append(",\"discards\":0,\"time\":");
    let mut time = String::new();
    push_decimal(&mut time, elapsed_us);
    time.append("us");
    out.append(json_str(time.as_str()).as_str());
    out.append(",\"counterexample\":");
    push_json_or_null(&mut out, counterexample);
    out.append(",\"error\":");
    push_json_or_null(&mut out, error);
    out.append(",\"tool\":");
    out.append(json_str(tool).as_str());
    out.append(",\"property\":");
    out.append(json_str(property).as_str());
    out.append("}");
    proof {
        assert(Seq::<char>::empty() + decimal(elapsed_us as nat) =~= decimal(elapsed_us as nat));
    }
    out
}

} // verus!
