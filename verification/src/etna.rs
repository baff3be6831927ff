//! Property functions that hold a rope against slow reference models.
//!
//! Each `property_<name>` takes concrete, owned inputs and returns a
//! `PropertyResult`. Test adapters and witness tests call these functions
//! directly. Each one's contract states which result it gives: a property that
//! always passes is one whose invariant is proved.

use vstd::prelude::*;
use vstd::string::*;
use vstd::utf8::*;

use crate::fnv_hash::{boundary_writes, ChunkBoundarySensitiveHasher, FNV_OFFSET_BASIS};
use crate::rope::{
    chunk_layout, hash_writes, leaf_cut, leaf_layout, lemma_chunk_layout_cuts, lemma_leaf_layout_cuts,
    piece_start, requested_cut, lemma_next_char_boundary, lemma_next_char_boundary_shift,
    lemma_utf16_char_roundtrip, next_char_boundary, Rope, RopeBuilder, RopeSlice, chunk_bytes_of,
    MAX_CHUNK_BYTES,
};
use crate::text::{
    lemma_byte_offset_is_char_boundary, lemma_byte_offset_mono, lemma_encode_flatten,
    lemma_encode_injective, lemma_encode_subrange, lemma_scan_breaks_encode, lemma_utf16_le_bytes,
    lemma_utf16_prefix_strict, line_count, scan_breaks, substr,
};

verus! {

/// The outcome of checking a property on one input.
pub enum PropertyResult {
    Pass,
    Fail(String),
    Discard,
}

// --------------------------------------------------------------------
// Helpers.

/// The chunks that `rope_from_str_chunked` cuts the UTF-8 bytes `b` into: for a
/// nonzero `chunk_size`, chunks of `chunk_size` bytes extended to char
/// boundaries; for 0, the leaves of `Rope::from_str`.
pub open spec fn chunked_layout(b: Seq<u8>, chunk_size: usize) -> Seq<Seq<u8>> {
    if chunk_size == 0 {
        leaf_layout(b, MAX_CHUNK_BYTES as nat)
    } else {
        chunk_layout(b, chunk_size as nat)
    }
}

/// The layout that `rope_from_str_chunked` builds covers the text in order. For a
/// nonzero chunk size each chunk is exactly the requested cut: it ends at the
/// first char boundary at or after `chunk_size` bytes from its start (or at the
/// end of the text), so it may end between a CR and its LF. For size 0 each
/// chunk is a leaf of `Rope::from_str`: the requested cut of `MAX_CHUNK_BYTES`
/// bytes, one byte longer exactly when that cut would part a CR LF pair.
pub proof fn lemma_chunked_layout_cuts(b: Seq<u8>, chunk_size: usize)
    ensures
        chunked_layout(b, chunk_size).flatten() == b,
        chunk_size > 0 ==> forall|k: int|
            0 <= k < chunked_layout(b, chunk_size).len() ==> requested_cut(
                b,
                chunk_size as nat,
                piece_start(chunked_layout(b, chunk_size), k),
                #[trigger] chunked_layout(b, chunk_size)[k],
            ),
        chunk_size == 0 ==> forall|k: int|
            0 <= k < chunked_layout(b, chunk_size).len() ==> leaf_cut(
                b,
                MAX_CHUNK_BYTES as nat,
                piece_start(chunked_layout(b, chunk_size), k),
                #[trigger] chunked_layout(b, chunk_size)[k],
            ),
{
    if chunk_size == 0 {
        lemma_leaf_layout_cuts(b, MAX_CHUNK_BYTES as nat);
    } else {
        lemma_chunk_layout_cuts(b, chunk_size as nat);
    }
}

/// Builds a rope from `text` by appending contiguous chunks of `chunk_size`
/// bytes each, every chunk extended to the next char boundary so that it is
/// valid UTF-8. The chunks are kept exactly as cut. For `chunk_size == 0` the
/// rope is `Rope::from_str(text)`.
pub fn rope_from_str_chunked(text: &str, chunk_size: usize) -> (r: Rope)
    requires
        text.spec_bytes().len() <= isize::MAX,
    ensures
        r@ == text@,
        r.chunk_bytes() == chunked_layout(text.spec_bytes(), chunk_size),
{
    if chunk_size == 0 || text.is_empty() {
        proof {
            if text@.len() == 0 {
                assert(text.spec_bytes() =~= Seq::<u8>::empty());
            }
        }
        return Rope::from_str(text);
    }
    let ghost size = chunk_size as nat;
    let ghost b = text.spec_bytes();
    let mut builder = RopeBuilder::new();
    let bytes = text.as_bytes();
    let mut i: usize = 0;
    proof {
        encode_utf8_valid_utf8(text@);
        is_char_boundary_start_end_of_seq(b);
        assert(b.skip(0) =~= b);
        assert(Seq::<Seq<u8>>::empty() + chunk_layout(b, size) =~= chunk_layout(b, size));
        assert(chunk_bytes_of(Seq::<Seq<char>>::empty()) =~= Seq::<Seq<u8>>::empty());
        assert(Seq::<Seq<u8>>::empty().flatten() =~= Seq::<u8>::empty());
        assert(b.take(0) =~= Seq::<u8>::empty());
        lemma_encode_flatten(Seq::<Seq<char>>::empty());
    }
    while i < bytes.len()
        invariant
            bytes@ == b,
            b == text.spec_bytes(),
            b.len() <= isize::MAX,
            valid_utf8(b),
            size == chunk_size,
            chunk_size > 0,
            i <= b.len(),
            is_char_boundary(b, i as int),
            chunk_bytes_of(builder@) + chunk_layout(b.skip(i as int), size) == chunk_layout(b, size),
            chunk_bytes_of(builder@).flatten() == b.take(i as int),
            builder.spec_len_bytes() == i,
        decreases b.len() - i,
    {
        let len = bytes.len();
        let mut end: usize = if chunk_size < len - i {
            i + chunk_size
        } else {
            len
        };
        let ghost m = end as int;
        proof {
            lemma_next_char_boundary(b, m);
        }
        while end < len && !text.is_char_boundary(end)
            invariant
                len == b.len(),
                b == text.spec_bytes(),
                valid_utf8(b),
                i < m <= end <= len,
                next_char_boundary(b, m) == next_char_boundary(b, end as int),
            decreases len - end,
        {
            proof {
                is_char_boundary_iff_not_is_continuation_byte(b, end as int);
            }
            end = end + 1;
        }
        proof {
            if end < len {
                is_char_boundary_iff_not_is_continuation_byte(b, end as int);
            }
            is_char_boundary_start_end_of_seq(b);
            lemma_next_char_boundary_shift(b, i as int, m - i);
            let rest = b.skip(i as int);
            let e = end - i;
            assert(rest.take(e) =~= b.subrange(i as int, end as int));
            assert(rest.skip(e) =~= b.skip(end as int));
            assert(chunk_layout(rest, size) =~= seq![rest.take(e)] + chunk_layout(rest.skip(e), size));
            lemma_encode_flatten(builder@);
        }
        let piece = substr(text, i, end);
        let ghost before = builder@;
        builder.append_chunk(piece);
        proof {
            assert(chunk_bytes_of(builder@) =~= chunk_bytes_of(before).push(piece.spec_bytes()));
            assert(chunk_bytes_of(builder@) + chunk_layout(b.skip(end as int), size) =~= chunk_bytes_of(
                before,
            ) + chunk_layout(b.skip(i as int), size));
            chunk_bytes_of(before).lemma_flatten_push(piece.spec_bytes());
            assert(b.take(end as int) =~= b.take(i as int) + b.subrange(i as int, end as int));
            lemma_encode_flatten(builder@);
        }
        i = end;
    }
    let r = builder.finish_no_fix();
    proof {
        assert(b.skip(b.len() as int) =~= Seq::<u8>::empty());
        assert(b.take(b.len() as int) =~= b);
        assert(chunk_bytes_of(r.chunk_texts()) + Seq::<Seq<u8>>::empty() =~= chunk_bytes_of(
            r.chunk_texts(),
        ));
        lemma_encode_flatten(r.chunk_texts());
        lemma_encode_injective(r@, text@);
    }
    r
}

/// Slow but obviously-correct count of the number of logical lines in a text:
/// every line break ends a line, a CR LF pair being one break, and the
/// (possibly empty) text after the last break is a line too, so the count is
/// at least 1. The breaks are recognized byte by byte.
pub fn slow_line_count(text: &str) -> (r: usize)
    requires
        text.spec_bytes().len() <= isize::MAX,
    ensures
        r == line_count(text@),
{
    let mut count = 1usize;
    let bytes = text.as_bytes();
    let ghost b = bytes@;
    let mut i: usize = 0;
    proof {
        assert(b.skip(0) =~= b);
    }
    while i < bytes.len()
        invariant
            b == bytes@,
            b.len() <= isize::MAX,
            i <= b.len(),
            count + scan_breaks(b.skip(i as int)) == 1 + scan_breaks(b),
            count <= i + 1,
        decreases b.len() - i,
    {
        let ghost t = b.skip(i as int);
        proof {
            assert(t[0] == b[i as int]);
            assert(t.skip(1) =~= b.skip(i + 1));
            if i + 1 < b.len() {
                assert(t[1] == b[i + 1]);
                assert(t.skip(2) =~= b.skip(i + 2));
            }
            if i + 2 < b.len() {
                assert(t[2] == b[i + 2]);
                assert(t.skip(3) =~= b.skip(i + 3));
            }
        }
        match bytes[i] {
            0x0A => {
                count += 1;
                i += 1;
            },
            0x0D => {
                count += 1;
                // Swallow an immediately-following LF as part of a CRLF pair.
                if i + 1 < bytes.len() && bytes[i + 1] == 0x0A {
                    i += 2;
                } else {
                    i += 1;
                }
            },
            0x0B | 0x0C => {
                count += 1;
                i += 1;
            },
            // NEL U+0085 (two bytes: C2 85).
            0xC2 => {
                if i + 1 < bytes.len() && bytes[i + 1] == 0x85 {
                    count += 1;
                    i += 2;
                } else {
                    i += 1;
                }
            },
            // LS U+2028 (E2 80 A8) / PS U+2029 (E2 80 A9).
            0xE2 => {
                if i + 2 < bytes.len() && bytes[i + 1] == 0x80 && (bytes[i + 2] == 0xA8
                    || bytes[i + 2] == 0xA9) {
                    count += 1;
                    i += 3;
                } else {
                    i += 1;
                }
            },
            _ => {
                i += 1;
            },
        }
    }
    proof {
        assert(b.skip(b.len() as int) =~= Seq::<u8>::empty());
        lemma_scan_breaks_encode(text@);
    }
    count
}

/// The hash that `hash_rope` gives for a rope with text `t`.
pub open spec fn text_hash(t: Seq<char>) -> u64 {
    boundary_writes(FNV_OFFSET_BASIS, hash_writes(encode_utf8(t)))
}

/// Hashes a rope with a fresh `ChunkBoundarySensitiveHasher`.
pub fn hash_rope(r: &Rope) -> (h: u64)
    ensures
        h == text_hash(r@),
{
    let mut h = ChunkBoundarySensitiveHasher::default();
    r.hash(&mut h);
    h.finish()
}

/// Two ropes that hold the same text hash the same, whatever their chunk layouts.
pub proof fn lemma_hash_ignores_layout(a: Rope, b: Rope)
    requires
        a@ == b@,
    ensures
        text_hash(a@) == text_hash(b@),
{
}

// --------------------------------------------------------------------
// Failure messages.

/// Formats a count that disagrees with the slow model (`format!`).
#[verifier::external_body]
fn count_mismatch_message(what: &str, got: usize, want: usize, len_bytes: usize) -> String {
    format!("{what} = {got}, slow model = {want} (len_bytes={len_bytes})")
}

/// Formats two hashes that disagree (`format!`).
#[verifier::external_body]
fn hash_mismatch_message(chunk_a: u16, ha: u64, chunk_b: u16, hb: u64, text_len: usize) -> String {
    format!("hash disagreement: chunk={chunk_a} -> {ha:x}, chunk={chunk_b} -> {hb:x}, text_len={text_len}")
}

/// Formats a failed UTF-16 round trip (`format!`).
#[verifier::external_body]
fn utf16_mismatch_message(i: usize, u: usize, round: usize, n_chars: usize) -> String {
    format!("char_to_utf16_cu({i})={u}, utf16_cu_to_char({u})={round} (len_chars={n_chars})")
}

/// Formats built contents that differ from the text appended (`format!`).
#[verifier::external_body]
fn content_mismatch_message(got: &str, want: &str) -> String {
    format!("RopeBuilder::default() built rope content mismatch: got {got:?}, want {want:?}")
}

/// Formats a slice line count that disagrees with the slow model (`format!`).
#[verifier::external_body]
fn slice_lines_mismatch_message(at_char: usize, got: usize, want: usize, prefix_text: &str) -> String {
    format!("slice(..{at_char}).len_lines() = {got}, slow model = {want} (prefix_text={prefix_text:?})")
}

// --------------------------------------------------------------------
// Properties.

/// Invariant: the number of lines of `Rope::lines()` matches the slow,
/// byte-by-byte reference count over the same text, both as the iterator's
/// length and as the number of lines it yields. In particular, an empty rope
/// has exactly one (empty) line, not zero.
pub fn property_lines_match_model(text: String) -> (r: PropertyResult)
    requires
        encode_utf8(text@).len() <= isize::MAX,
    ensures
        r is Pass,
{
    let rope = Rope::from_str(text.as_str());
    let want = slow_line_count(text.as_str());
    let got_len = rope.lines().len();
    if got_len != want {
        return PropertyResult::Fail(
            count_mismatch_message("rope.lines().len()", got_len, want, text.as_str().len()),
        );
    }
    // Draining must also match, also after a first step.
    let mut it = rope.lines();
    let _first = it.next();
    let _ = it.len();
    let n = rope.lines().count();
    if n == want {
        PropertyResult::Pass
    } else {
        PropertyResult::Fail(
            count_mismatch_message("rope.lines().count()", n, want, text.as_str().len()),
        )
    }
}

/// Invariant: comparing the lines of two ropes never fails, even when one of
/// them had chars removed from non-ASCII text, so that its lines start or end
/// anywhere in the chunks the text was cut into. Every line of the first rope is compared
/// with every line of the second, both ways round.
pub fn property_rope_eq_chunk_invariant(text: String, remove_start: u16, remove_len: u16) -> (r:
    PropertyResult)
    requires
        encode_utf8(text@).len() <= isize::MAX,
    ensures
        r is Discard <==> (is_ascii_chars(text@) || text@.len() < 8),
        r is Pass <==> !(is_ascii_chars(text@) || text@.len() < 8),
{
    // Need at least one non-ASCII scalar, and enough text for several lines.
    if text.as_str().is_ascii() {
        return PropertyResult::Discard;
    }
    let rope1 = Rope::from_str(text.as_str());
    let n_chars = rope1.len_chars();
    if n_chars < 8 {
        return PropertyResult::Discard;
    }
    let start = (remove_start as usize) % n_chars;
    let max_len = n_chars - start;
    let len0 = (remove_len as usize) % max_len;
    let len = if len0 < 1 {
        1
    } else {
        len0
    };
    let mut rope2 = Rope::from_str(text.as_str());
    rope2.remove(start, start + len);
    let mut l2: Vec<RopeSlice> = Vec::new();
    let mut it2 = rope2.lines();
    while it2.len() > 0
        decreases it2.remaining(),
    {
        match it2.next() {
            Some(line) => l2.push(line),
            None => {},
        }
    }
    let mut it1 = rope1.lines();
    while it1.len() > 0
        decreases it1.remaining(),
    {
        match it1.next() {
            Some(line1) => {
                for j in 0..l2.len() {
                    // Evaluate both directions of the comparison.
                    let _ = line1 == l2[j];
                    let _ = l2[j] == line1;
                }
            },
            None => {},
        }
    }
    PropertyResult::Pass
}

/// Invariant: two ropes built from the same text but with different chunk
/// boundaries produce the same hash, when hashed with a hasher that does not
/// coalesce `write` calls.
pub fn property_rope_hash_chunk_invariant(text: String, chunk_a: u16, chunk_b: u16) -> (r:
    PropertyResult)
    requires
        encode_utf8(text@).len() <= isize::MAX,
    ensures
        r is Discard <==> (chunk_a == 0 || chunk_b == 0 || chunk_a == chunk_b),
        r is Pass <==> !(chunk_a == 0 || chunk_b == 0 || chunk_a == chunk_b),
{
    if chunk_a == 0 || chunk_b == 0 || chunk_a == chunk_b {
        return PropertyResult::Discard;
    }
    let a = rope_from_str_chunked(text.as_str(), chunk_a as usize);
    let b = rope_from_str_chunked(text.as_str(), chunk_b as usize);
    let ha = hash_rope(&a);
    let hb = hash_rope(&b);
    if ha != hb {
        return PropertyResult::Fail(
            hash_mismatch_message(chunk_a, ha, chunk_b, hb, text.as_str().len()),
        );
    }
    PropertyResult::Pass
}

/// Invariant: `char_to_utf16_cu` and `utf16_cu_to_char` round-trip on every
/// char index of a rope, for arbitrary text: mapping char index `i` to its
/// UTF-16 code unit index and back gives `i` again.
pub fn property_utf16_char_roundtrip(text: String) -> (r: PropertyResult)
    requires
        encode_utf8(text@).len() <= isize::MAX,
    ensures
        r is Pass,
{
    let rope = Rope::from_str(text.as_str());
    let n_chars = rope.len_chars();
    let ghost t = rope@;
    proof {
        lemma_byte_offset_mono(t, t.len() as int, t.len() as int);
        lemma_utf16_le_bytes(t, t.len() as int);
    }
    let mut i: usize = 0;
    while i <= n_chars
        invariant
            n_chars == t.len(),
            t == rope@,
            n_chars <= isize::MAX,
        decreases n_chars + 1 - i,
    {
        proof {
            assert(t.take(t.len() as int) =~= t);
            if i < n_chars {
                lemma_utf16_prefix_strict(t, i as int, t.len() as int);
            }
        }
        let u = rope.char_to_utf16_cu(i);
        let round = rope.utf16_cu_to_char(u);
        proof {
            lemma_utf16_char_roundtrip(t, i as int, round as int);
        }
        if round != i {
            return PropertyResult::Fail(utf16_mismatch_message(i, u, round, n_chars));
        }
        i = i + 1;
    }
    PropertyResult::Pass
}

/// Invariant: `RopeBuilder::default()` works as `RopeBuilder::new()` does:
/// appending `text` and finishing gives a rope whose contents equal `text`.
pub fn property_rope_builder_default_build(text: String) -> (r: PropertyResult)
    requires
        encode_utf8(text@).len() <= isize::MAX,
    ensures
        r is Pass,
{
    let mut b = RopeBuilder::default();
    proof {
        assert(Seq::<Seq<char>>::empty().flatten() =~= Seq::<char>::empty());
        assert(encode_utf8(Seq::<char>::empty()) =~= Seq::<u8>::empty());
    }
    b.append(text.as_str());
    let rope = b.finish();
    proof {
        assert(Seq::<char>::empty() + text@ =~= text@);
    }
    let got = rope.to_string();
    if got == text {
        PropertyResult::Pass
    } else {
        PropertyResult::Fail(content_mismatch_message(got.as_str(), text.as_str()))
    }
}

/// Invariant: for a char index `i` of a rope cut into small chunks, the slice
/// of its first `i` chars has as many lines as the slow per-byte count finds in
/// the text's bytes before char `i`, also when `i` falls between a CR and an LF.
pub fn property_slice_crlf_len_lines(text: String, prefix: u16) -> (r: PropertyResult)
    requires
        encode_utf8(text@).len() <= isize::MAX,
    ensures
        r is Discard <==> text@.len() == 0,
        r is Pass <==> text@.len() != 0,
{
    // Small chunks, so that the slice ends inside the chunk layout.
    let rope = rope_from_str_chunked(text.as_str(), 4);
    let n_chars = rope.len_chars();
    if n_chars == 0 {
        return PropertyResult::Discard;
    }
    let ghost t = text@;
    proof {
        lemma_byte_offset_mono(t, t.len() as int, t.len() as int);
        lemma_utf16_le_bytes(t, t.len() as int);
    }
    let at_char = (prefix as usize) % (n_chars + 1);
    let at_byte = rope.char_to_byte(at_char);
    proof {
        lemma_byte_offset_is_char_boundary(t, 0);
        lemma_byte_offset_is_char_boundary(t, at_char as int);
        lemma_byte_offset_mono(t, 0, at_char as int);
        lemma_byte_offset_mono(t, at_char as int, t.len() as int);
    }
    let prefix_text = substr(text.as_str(), 0, at_byte);
    proof {
        lemma_encode_subrange(t, 0, at_char as int);
        assert(t.subrange(0, at_char as int) =~= t.take(at_char as int));
        lemma_encode_injective(prefix_text@, t.take(at_char as int));
    }
    let want = slow_line_count(prefix_text);
    let slice = rope.slice(0, at_char);
    let got = slice.len_lines();
    proof {
        assert(t.subrange(0, at_char as int) =~= t.take(at_char as int));
    }
    if got == want {
        PropertyResult::Pass
    } else {
        PropertyResult::Fail(slice_lines_mismatch_message(at_char, got, want, prefix_text))
    }
}

} // verus!
