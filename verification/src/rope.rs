//! A rope: a text held as a sequence of UTF-8 chunks.
//!
//! The view of a rope is its text, a `Seq<char>`; the chunks are its layout.
//! Every query is stated over the text, so no result depends on the layout.

use vstd::prelude::*;
use vstd::seq_lib::lemma_flatten_concat;
use vstd::std_specs::cmp::PartialEqSpecImpl;
use vstd::string::*;
use vstd::utf8::*;

use crate::fnv_hash::{
    boundary_write, boundary_writes, lemma_boundary_writes_push, ChunkBoundarySensitiveHasher,
};
use crate::text::{
    byte_offset, first_line_len, lead_width_of, lemma_byte_offset_is_char_boundary,
    lemma_boundary_after_ascii, lemma_byte_offset_mono, lemma_char_break_bytes, lemma_char_walk, lemma_encode_concat,
    lemma_encode_flatten, lemma_encode_injective, lemma_encode_subrange, lemma_lf_cr_bytes,
    lemma_line_breaks_concat, lemma_line_breaks_le_len, lemma_scan_breaks_encode,
    lemma_utf16_le_bytes, lemma_utf16_len_concat, lemma_utf16_prefix_strict, line_breaks,
    line_count, scan_breaks, substr, utf16_len,
};

verus! {

/// The target byte length of the chunks that `Rope::from_str` and
/// `RopeBuilder::append` cut a text into.
pub const MAX_CHUNK_BYTES: usize = 984;

// ------------------------------------------------------------------
// Chunk layouts.

/// The first char boundary of the UTF-8 bytes `b` at or after byte `i`
/// (the end of `b` when there is none).
pub open spec fn next_char_boundary(b: Seq<u8>, i: int) -> int
    decreases b.len() - i,
{
    if i >= b.len() {
        b.len() as int
    } else if i >= 0 && !is_continuation_byte(b[i]) {
        i
    } else {
        next_char_boundary(b, i + 1)
    }
}

/// Basic facts on `next_char_boundary`.
pub proof fn lemma_next_char_boundary(b: Seq<u8>, i: int)
    requires
        0 <= i <= b.len(),
    ensures
        i <= next_char_boundary(b, i) <= b.len(),
        next_char_boundary(b, i) < b.len() ==> !is_continuation_byte(
            b[next_char_boundary(b, i)],
        ),
        forall|j: int| i <= j < next_char_boundary(b, i) ==> #[trigger] is_continuation_byte(b[j]),
    decreases b.len() - i,
{
    if i < b.len() && is_continuation_byte(b[i]) {
        lemma_next_char_boundary(b, i + 1);
    }
}

/// `next_char_boundary` on a suffix is `next_char_boundary` on the whole, shifted.
pub proof fn lemma_next_char_boundary_shift(b: Seq<u8>, k: int, i: int)
    requires
        0 <= k <= b.len(),
        0 <= i,
        k + i <= b.len(),
    ensures
        next_char_boundary(b.skip(k), i) + k == next_char_boundary(b, i + k),
    decreases b.len() - (i + k),
{
    if i + k < b.len() {
        assert(b.skip(k)[i] == b[i + k]);
        if is_continuation_byte(b[i + k]) {
            lemma_next_char_boundary_shift(b, k, i + 1);
        }
    }
}

/// The chunks that cutting the UTF-8 bytes `b` gives: each chunk takes at least
/// `size` bytes (or what is left), then extends to the next char boundary.
pub open spec fn chunk_layout(b: Seq<u8>, size: nat) -> Seq<Seq<u8>>
    decreases b.len(),
{
    if b.len() == 0 || size == 0 {
        Seq::empty()
    } else {
        let e = next_char_boundary(
            b,
            if size < b.len() {
                size as int
            } else {
                b.len() as int
            },
        );
        proof {
            lemma_next_char_boundary(
                b,
                if size < b.len() {
                    size as int
                } else {
                    b.len() as int
                },
            );
        }
        seq![b.take(e)] + chunk_layout(b.skip(e), size)
    }
}

/// Where piece `k` of `pieces` starts, counting the bytes of the pieces before it.
pub open spec fn piece_start(pieces: Seq<Seq<u8>>, k: int) -> int {
    pieces.take(k).flatten().len() as int
}

/// `piece` is what a cut of the UTF-8 bytes `b` gives from byte `start` with a
/// requested length of `size`: the bytes from `start` up to the first char
/// boundary at or after `start + size` (or the end of `b`), and no further.
pub open spec fn requested_cut(b: Seq<u8>, size: nat, start: int, piece: Seq<u8>) -> bool {
    let n = piece.len() as int;
    let want = if size < b.len() - start {
        size as int
    } else {
        b.len() - start
    };
    &&& 0 <= start
    &&& 0 < n
    &&& start + n <= b.len()
    &&& piece == b.subrange(start, start + n)
    &&& want <= n
    &&& (start + n == b.len() || !is_continuation_byte(b[start + n]))
    &&& forall|j: int| start + want <= j < start + n ==> #[trigger] is_continuation_byte(b[j])
}

/// Putting `c` in front of `rest` shifts where each later piece starts by the
/// length of `c`.
proof fn lemma_piece_start_cons(c: Seq<u8>, rest: Seq<Seq<u8>>, k: int)
    requires
        0 < k <= rest.len() + 1,
    ensures
        piece_start(seq![c] + rest, k) == c.len() + piece_start(rest, k - 1),
{
    let l = seq![c] + rest;
    let t = l.take(k);
    assert(t.first() == c);
    assert(t.drop_first() =~= rest.take(k - 1));
}

/// A cut of a suffix of `b` is the same cut of `b`, shifted.
proof fn lemma_requested_cut_shift(b: Seq<u8>, size: nat, e: int, s: int, q: Seq<u8>)
    requires
        0 <= e <= b.len(),
        requested_cut(b.skip(e), size, s, q),
    ensures
        requested_cut(b, size, e + s, q),
{
    let rest = b.skip(e);
    let nq = q.len() as int;
    assert(q =~= b.subrange(e + s, e + s + nq));
    let want = if size < rest.len() - s {
        size as int
    } else {
        rest.len() - s
    };
    assert forall|j: int| e + s + want <= j < e + s + nq implies #[trigger] is_continuation_byte(b[j]) by {
        assert(rest[j - e] == b[j]);
        assert(is_continuation_byte(rest[j - e]));
    }
    if e + s + nq < b.len() {
        assert(rest[s + nq] == b[e + s + nq]);
    }
}

/// With a chunk size above zero, `chunk_layout` cuts the whole text, each chunk
/// exactly as requested: it starts where the previous one ended, takes at least
/// `size` bytes (or what is left) and ends at the first char boundary from there.
/// So a chunk may end between a CR and the LF after it.
pub proof fn lemma_chunk_layout_cuts(b: Seq<u8>, size: nat)
    requires
        size > 0,
    ensures
        chunk_layout(b, size).flatten() == b,
        forall|k: int|
            0 <= k < chunk_layout(b, size).len() ==> requested_cut(
                b,
                size,
                piece_start(chunk_layout(b, size), k),
                #[trigger] chunk_layout(b, size)[k],
            ),
    decreases b.len(),
{
    let l = chunk_layout(b, size);
    if b.len() == 0 {
        assert(l =~= Seq::<Seq<u8>>::empty());
    } else {
        let m = if size < b.len() {
            size as int
        } else {
            b.len() as int
        };
        lemma_next_char_boundary(b, m);
        let e = next_char_boundary(b, m);
        let c = b.take(e);
        let rest = b.skip(e);
        let lr = chunk_layout(rest, size);
        lemma_chunk_layout_cuts(rest, size);
        assert(l =~= seq![c] + lr);
        assert(l.drop_first() =~= lr);
        assert(c + rest =~= b);
        assert forall|k: int| 0 <= k < l.len() implies requested_cut(
            b,
            size,
            piece_start(l, k),
            #[trigger] l[k],
        ) by {
            if k == 0 {
                assert(l.take(0) =~= Seq::<Seq<u8>>::empty());
                assert(c =~= b.subrange(0, e));
            } else {
                lemma_piece_start_cons(c, lr, k);
                assert(l[k] == lr[k - 1]);
                lemma_requested_cut_shift(b, size, e, piece_start(lr, k - 1), lr[k - 1]);
            }
        }
    }
}

/// The end of the first leaf that `RopeBuilder::append` cuts from the UTF-8 bytes
/// `b`: at least `size` bytes (or what is left), extended to the next char
/// boundary, and one byte further when that boundary would part a CR from the
/// LF after it.
pub open spec fn leaf_end(b: Seq<u8>, size: nat) -> int {
    let e = next_char_boundary(
        b,
        if size < b.len() {
            size as int
        } else {
            b.len() as int
        },
    );
    if 0 < e < b.len() && b[e - 1] == 0x0D && b[e] == 0x0A {
        e + 1
    } else {
        e
    }
}

/// The leaves that `RopeBuilder::append` cuts the UTF-8 bytes `b` into: chunks as
/// `chunk_layout` cuts them, except that a CR LF pair is never parted.
pub open spec fn leaf_layout(b: Seq<u8>, size: nat) -> Seq<Seq<u8>>
    decreases b.len(),
{
    if b.len() == 0 || size == 0 {
        Seq::empty()
    } else {
        let e = leaf_end(b, size);
        proof {
            lemma_next_char_boundary(
                b,
                if size < b.len() {
                    size as int
                } else {
                    b.len() as int
                },
            );
        }
        seq![b.take(e)] + leaf_layout(b.skip(e), size)
    }
}

/// `piece` is what a leaf cut of the UTF-8 bytes `b` gives from byte `start`: the
/// requested cut of `size` bytes, one byte longer exactly when that cut would end
/// between a CR and the LF after it.
pub open spec fn leaf_cut(b: Seq<u8>, size: nat, start: int, piece: Seq<u8>) -> bool {
    let n = piece.len() as int;
    ||| requested_cut(b, size, start, piece) && !(piece.last() == 0x0D && start + n < b.len()
        && b[start + n] == 0x0A)
    ||| n >= 2 && requested_cut(b, size, start, piece.drop_last()) && piece[n - 2] == 0x0D
        && piece[n - 1] == 0x0A
}

/// A leaf cut of a suffix of `b` is the same leaf cut of `b`, shifted.
proof fn lemma_leaf_cut_shift(b: Seq<u8>, size: nat, e: int, s: int, p: Seq<u8>)
    requires
        0 <= e <= b.len(),
        leaf_cut(b.skip(e), size, s, p),
    ensures
        leaf_cut(b, size, e + s, p),
{
    let rest = b.skip(e);
    let n = p.len() as int;
    if requested_cut(rest, size, s, p) && !(p.last() == 0x0D && s + n < rest.len() && rest[s
        + n] == 0x0A) {
        lemma_requested_cut_shift(b, size, e, s, p);
        if e + s + n < b.len() {
            assert(rest[s + n] == b[e + s + n]);
        }
    } else {
        lemma_requested_cut_shift(b, size, e, s, p.drop_last());
    }
}

/// With a size above zero, `leaf_layout` cuts the whole text into leaves, each
/// starting where the previous one ended and cut as requested, except that a
/// leaf whose cut would part a CR LF pair takes the LF too.
pub proof fn lemma_leaf_layout_cuts(b: Seq<u8>, size: nat)
    requires
        size > 0,
    ensures
        leaf_layout(b, size).flatten() == b,
        forall|k: int|
            0 <= k < leaf_layout(b, size).len() ==> leaf_cut(
                b,
                size,
                piece_start(leaf_layout(b, size), k),
                #[trigger] leaf_layout(b, size)[k],
            ),
    decreases b.len(),
{
    let l = leaf_layout(b, size);
    if b.len() == 0 {
        assert(l =~= Seq::<Seq<u8>>::empty());
    } else {
        let m = if size < b.len() {
            size as int
        } else {
            b.len() as int
        };
        lemma_next_char_boundary(b, m);
        let e0 = next_char_boundary(b, m);
        let e = leaf_end(b, size);
        let c = b.take(e);
        let rest = b.skip(e);
        let lr = leaf_layout(rest, size);
        lemma_leaf_layout_cuts(rest, size);
        assert(l =~= seq![c] + lr);
        assert(l.drop_first() =~= lr);
        assert(c + rest =~= b);
        assert forall|k: int| 0 <= k < l.len() implies leaf_cut(
            b,
            size,
            piece_start(l, k),
            #[trigger] l[k],
        ) by {
            if k == 0 {
                assert(l.take(0) =~= Seq::<Seq<u8>>::empty());
                assert(c =~= b.subrange(0, e));
                if e == e0 {
                    assert(requested_cut(b, size, 0, c));
                } else {
                    assert(c.drop_last() =~= b.subrange(0, e0));
                    assert(requested_cut(b, size, 0, c.drop_last()));
                }
            } else {
                lemma_piece_start_cons(c, lr, k);
                assert(l[k] == lr[k - 1]);
                lemma_leaf_cut_shift(b, size, e, piece_start(lr, k - 1), lr[k - 1]);
            }
        }
    }
}

/// No two neighbouring leaves part a CR LF pair: a leaf that ends with a CR is
/// never followed by one that starts with an LF. Every leaf is non-empty.
pub proof fn lemma_leaf_layout_keeps_crlf(b: Seq<u8>, size: nat)
    requires
        size > 0,
    ensures
        forall|k: int| 0 <= k < leaf_layout(b, size).len() ==> #[trigger] leaf_layout(b, size)[k].len() > 0,
        forall|k: int|
            0 <= k < leaf_layout(b, size).len() - 1 ==> !(#[trigger] leaf_layout(b, size)[k].last()
                == 0x0D && leaf_layout(b, size)[k + 1][0] == 0x0A),
    decreases b.len(),
{
    if b.len() > 0 {
        let m = if size < b.len() {
            size as int
        } else {
            b.len() as int
        };
        lemma_next_char_boundary(b, m);
        let e = leaf_end(b, size);
        let rest = b.skip(e);
        lemma_leaf_layout_keeps_crlf(rest, size);
        let l = leaf_layout(b, size);
        let lr = leaf_layout(rest, size);
        assert(l =~= seq![b.take(e)] + lr);
        assert forall|k: int| 0 <= k < l.len() implies #[trigger] l[k].len() > 0 by {
            if k > 0 {
                assert(l[k] == lr[k - 1]);
            }
        }
        assert forall|k: int| 0 <= k < l.len() - 1 implies !(#[trigger] l[k].last() == 0x0D
            && l[k + 1][0] == 0x0A) by {
            if k > 0 {
                assert(l[k] == lr[k - 1]);
                assert(l[k + 1] == lr[k]);
            } else {
                assert(l[0] == b.take(e));
                assert(l[1] == lr[0]);
                if rest.len() > 0 {
                    lemma_next_char_boundary(
                        rest,
                        if size < rest.len() {
                            size as int
                        } else {
                            rest.len() as int
                        },
                    );
                    assert(lr[0] == rest.take(leaf_end(rest, size)));
                    assert(rest[0] == b[e]);
                    assert(lr[0][0] == b[e]);
                }
                assert(b.take(e).last() == b[e - 1]);
            }
        }
    }
}

/// The bytes of each chunk of a sequence of chunk texts.
pub open spec fn chunk_bytes_of(chunks: Seq<Seq<char>>) -> Seq<Seq<u8>> {
    chunks.map_values(|s: Seq<char>| encode_utf8(s))
}

// ------------------------------------------------------------------
// Ropes.

/// A text held as a sequence of chunks, each a `String`.
pub struct Rope {
    chunks: Vec<String>,
}

impl Rope {
    /// The text of each chunk, in order.
    pub closed spec fn chunk_texts(&self) -> Seq<Seq<char>> {
        self.chunks@.map_values(|s: String| s@)
    }

    /// The bytes of each chunk, in order.
    pub open spec fn chunk_bytes(&self) -> Seq<Seq<u8>> {
        chunk_bytes_of(self.chunk_texts())
    }

    /// The UTF-8 bytes of the text.
    pub open spec fn bytes(&self) -> Seq<u8> {
        encode_utf8(self@)
    }

    /// The text fits in memory: no allocation is longer than `isize::MAX` bytes.
    #[verifier::type_invariant]
    spec fn fits(&self) -> bool {
        encode_utf8(self.chunk_texts().flatten()).len() <= isize::MAX
    }
}

impl View for Rope {
    type V = Seq<char>;

    /// The text of a rope: its chunks put together.
    open spec fn view(&self) -> Seq<char> {
        self.chunk_texts().flatten()
    }
}

/// Builds a rope chunk by chunk.
pub struct RopeBuilder {
    chunks: Vec<String>,
}

impl View for RopeBuilder {
    type V = Seq<Seq<char>>;

    /// The texts of the chunks appended so far.
    closed spec fn view(&self) -> Seq<Seq<char>> {
        self.chunks@.map_values(|s: String| s@)
    }
}

impl RopeBuilder {
    /// The appended text fits in memory.
    #[verifier::type_invariant]
    spec fn fits(&self) -> bool {
        encode_utf8(self.chunks@.map_values(|s: String| s@).flatten()).len() <= isize::MAX
    }

    /// The byte length of all the text appended so far.
    pub open spec fn spec_len_bytes(&self) -> nat {
        encode_utf8(self@.flatten()).len()
    }

    /// A builder with nothing appended yet.
    pub fn new() -> (r: RopeBuilder)
        ensures
            r@ == Seq::<Seq<char>>::empty(),
    {
        let r = RopeBuilder { chunks: Vec::new() };
        assert(r.chunks@.map_values(|s: String| s@) =~= Seq::<Seq<char>>::empty());
        r
    }

    /// Appends `chunk` as a chunk of its own, exactly as given.
    pub fn append_chunk(&mut self, chunk: &str)
        requires
            old(self).spec_len_bytes() + chunk.spec_bytes().len() <= isize::MAX,
        ensures
            final(self)@ == old(self)@.push(chunk@),
    {
        let ghost old_chunks = self@;
        let s = chunk.to_owned();
        proof {
            old_chunks.lemma_flatten_push(chunk@);
            lemma_encode_concat(old_chunks.flatten(), chunk@);
            assert(self.chunks@.push(s).map_values(|s: String| s@) =~= old_chunks.push(chunk@));
        }
        let mut chunks = Vec::new();
        std::mem::swap(&mut chunks, &mut self.chunks);
        chunks.push(s);
        self.chunks = chunks;
    }

    /// Appends `text`, cut into leaves of `MAX_CHUNK_BYTES` bytes extended to char
    /// boundaries, never parting a CR from the LF after it.
    pub fn append(&mut self, text: &str)
        requires
            old(self).spec_len_bytes() + text.spec_bytes().len() <= isize::MAX,
        ensures
            chunk_bytes_of(final(self)@) == chunk_bytes_of(old(self)@) + leaf_layout(
                text.spec_bytes(),
                MAX_CHUNK_BYTES as nat,
            ),
            final(self)@.flatten() == old(self)@.flatten() + text@,
    {
        let ghost start = self@;
        let ghost b = text.spec_bytes();
        let bytes = text.as_bytes();
        let len = bytes.len();
        let mut i: usize = 0;
        proof {
            encode_utf8_valid_utf8(text@);
            is_char_boundary_start_end_of_seq(b);
            assert(b.skip(0) =~= b);
            assert(chunk_bytes_of(start) + Seq::<Seq<u8>>::empty() =~= chunk_bytes_of(start));
            assert(b.take(0) =~= Seq::<u8>::empty());
            lemma_encode_flatten(start);
        }
        while i < len
            invariant
                len == b.len(),
                bytes@ == b,
                b == text.spec_bytes(),
                valid_utf8(b),
                i <= len,
                is_char_boundary(b, i as int),
                chunk_bytes_of(self@) + leaf_layout(b.skip(i as int), MAX_CHUNK_BYTES as nat)
                    == chunk_bytes_of(start) + leaf_layout(b, MAX_CHUNK_BYTES as nat),
                chunk_bytes_of(self@).flatten() == chunk_bytes_of(start).flatten() + b.take(
                    i as int,
                ),
                self.spec_len_bytes() == encode_utf8(start.flatten()).len() + i,
                encode_utf8(start.flatten()).len() + len <= isize::MAX,
            decreases len - i,
        {
            let mut end: usize = if MAX_CHUNK_BYTES < len - i {
                i + MAX_CHUNK_BYTES
            } else {
                len
            };
            let ghost m = end as int;
            proof {
                lemma_next_char_boundary(b, m);
            }
            while end < len && !text.is_char_boundary(end)
                invariant
                    len == b.len(),
                    b == text.spec_bytes(),
                    valid_utf8(b),
                    i < m <= end <= len,
                    next_char_boundary(b, m) == next_char_boundary(b, end as int),
                decreases len - end,
            {
                proof {
                    is_char_boundary_iff_not_is_continuation_byte(b, end as int);
                }
                end = end + 1;
            }
            proof {
                if end < len {
                    is_char_boundary_iff_not_is_continuation_byte(b, end as int);
                }
                is_char_boundary_start_end_of_seq(b);
                lemma_next_char_boundary_shift(b, i as int, m - i);
            }
            let ghost e0 = end as int;
            if end < len && bytes[end - 1] == 0x0D && bytes[end] == 0x0A {
                proof {
                    lemma_boundary_after_ascii(b, end as int);
                }
                end = end + 1;
            }
            proof {
                let rest = b.skip(i as int);
                assert(rest.len() > 0);
                assert(rest[e0 - i - 1] == b[e0 - 1]);
                if e0 < len {
                    assert(rest[e0 - i] == b[e0]);
                }
                assert(leaf_end(rest, MAX_CHUNK_BYTES as nat) == end - i);
                let ghost e = end - i;
                assert(rest.take(e) =~= b.subrange(i as int, end as int));
                assert(rest.skip(e) =~= b.skip(end as int));
                assert(leaf_layout(rest, MAX_CHUNK_BYTES as nat) =~= seq![rest.take(e)]
                    + leaf_layout(rest.skip(e), MAX_CHUNK_BYTES as nat));
            }
            let piece = substr(text, i, end);
            let ghost before = self@;
            self.append_chunk(piece);
            proof {
                assert(chunk_bytes_of(self@) =~= chunk_bytes_of(before).push(piece.spec_bytes()));
                assert(chunk_bytes_of(self@) + leaf_layout(b.skip(end as int), MAX_CHUNK_BYTES as nat)
                    =~= chunk_bytes_of(before) + leaf_layout(b.skip(i as int), MAX_CHUNK_BYTES as nat));
                chunk_bytes_of(before).lemma_flatten_push(piece.spec_bytes());
                assert(b.take(end as int) =~= b.take(i as int) + b.subrange(i as int, end as int));
                lemma_encode_flatten(self@);
                lemma_encode_flatten(start);
            }
            i = end;
        }
        proof {
            assert(b.skip(len as int) =~= Seq::<u8>::empty());
            assert(b.take(len as int) =~= b);
            assert(chunk_bytes_of(self@) + Seq::<Seq<u8>>::empty() =~= chunk_bytes_of(self@));
            lemma_encode_flatten(self@);
            lemma_encode_flatten(start);
            lemma_encode_concat(start.flatten(), text@);
            lemma_encode_injective(self@.flatten(), start.flatten() + text@);
        }
    }

    /// The rope of the chunks appended, laid out exactly as appended.
    pub fn finish_no_fix(self) -> (r: Rope)
        ensures
            r.chunk_texts() == self@,
    {
        proof {
            use_type_invariant(&self);
        }
        Rope { chunks: self.chunks }
    }

    /// The rope of the text appended. A chunk list has no tree to rebalance, so
    /// the chunks stay as appended.
    pub fn finish(self) -> (r: Rope)
        ensures
            r@ == self@.flatten(),
            r.chunk_texts() == self@,
    {
        self.finish_no_fix()
    }
}

impl Default for RopeBuilder {
    /// A builder with nothing appended yet, as `RopeBuilder::new` gives.
    fn default() -> (r: RopeBuilder)
        ensures
            r@ == Seq::<Seq<char>>::empty(),
    {
        RopeBuilder::new()
    }
}

impl Rope {
    /// The rope of `text`, cut into leaves of `MAX_CHUNK_BYTES` bytes extended to
    /// char boundaries, never parting a CR from the LF after it.
    pub fn from_str(text: &str) -> (r: Rope)
        requires
            text.spec_bytes().len() <= isize::MAX,
        ensures
            r@ == text@,
            r.chunk_bytes() == leaf_layout(text.spec_bytes(), MAX_CHUNK_BYTES as nat),
    {
        let mut b = RopeBuilder::new();
        proof {
            assert(Seq::<Seq<char>>::empty().flatten() =~= Seq::<char>::empty());
            assert(encode_utf8(Seq::<char>::empty()) =~= Seq::<u8>::empty());
            assert(chunk_bytes_of(Seq::<Seq<char>>::empty()) =~= Seq::<Seq<u8>>::empty());
        }
        b.append(text);
        proof {
            assert(Seq::<Seq<u8>>::empty() + leaf_layout(text.spec_bytes(), MAX_CHUNK_BYTES as nat)
                =~= leaf_layout(text.spec_bytes(), MAX_CHUNK_BYTES as nat));
            assert(Seq::<char>::empty() + text@ =~= text@);
        }
        b.finish_no_fix()
    }
}

// ------------------------------------------------------------------
// Walking chars over UTF-8 bytes.

/// The UTF-16 length of the char whose lead byte is `b`.
fn utf16_width_of(b: u8) -> (r: usize)
    ensures
        r == (if b >= 0xF0 { 2int } else { 1int }),
{
    if b >= 0xF0 {
        2
    } else {
        1
    }
}

/// `r` is the char index that the UTF-16 code unit index `u` falls in: the last
/// char index whose UTF-16 offset is at most `u`.
pub open spec fn utf16_floor(cs: Seq<char>, u: int, r: int) -> bool {
    &&& 0 <= r <= cs.len()
    &&& utf16_len(cs.take(r)) <= u
    &&& (r < cs.len() ==> u < utf16_len(cs.take(r + 1)))
}

/// Walks the chars encoded in `bytes` from the start, and stops before the first
/// char that would take the walk past `max_chars` chars or `max_utf16` UTF-16
/// code units. Returns the chars, bytes and UTF-16 code units walked.
fn walk_chars(bytes: &[u8], Ghost(cs): Ghost<Seq<char>>, max_chars: usize, max_utf16: usize) -> (r: (
    usize,
    usize,
    usize,
))
    requires
        bytes@ == encode_utf8(cs),
    ensures
        bytes@.len() <= usize::MAX,
        r.0 <= cs.len(),
        r.0 <= max_chars,
        r.1 == byte_offset(cs, r.0 as int),
        r.2 == utf16_len(cs.take(r.0 as int)),
        r.2 <= max_utf16,
        r.0 == cs.len() || r.0 == max_chars || utf16_len(cs.take(r.0 + 1)) > max_utf16,
{
    let len = bytes.len();
    let mut k: usize = 0;
    let mut p: usize = 0;
    let mut u: usize = 0;
    proof {
        assert(cs.take(0) =~= Seq::<char>::empty());
        lemma_byte_offset_mono(cs, 0, cs.len() as int);
    }
    while p < len && k < max_chars && utf16_width_of(bytes[p]) <= max_utf16 - u
        invariant
            bytes@ == encode_utf8(cs),
            len == bytes@.len(),
            k <= cs.len(),
            k <= max_chars,
            p == byte_offset(cs, k as int),
            u == utf16_len(cs.take(k as int)),
            u <= max_utf16,
            (p < len) == (k < cs.len()),
        decreases cs.len() - k,
    {
        proof {
            lemma_char_walk(cs, k as int);
            lemma_utf16_le_bytes(cs, k + 1);
            lemma_byte_offset_mono(cs, k + 1, cs.len() as int);
            if k + 1 < cs.len() {
                lemma_byte_offset_mono(cs, k + 1, k + 2);
            }
        }
        let w = lead_width_of(bytes[p]);
        let w16 = utf16_width_of(bytes[p]);
        p = p + w;
        u = u + w16;
        k = k + 1;
    }
    proof {
        if p < len && k < max_chars {
            lemma_char_walk(cs, k as int);
        }
    }
    (k, p, u)
}

/// Prefixes of a chunk sequence: one more chunk adds its text, and the bytes of a
/// prefix are no more than the bytes of the whole.
proof fn lemma_chunk_prefix(chunks: Seq<Seq<char>>, i: int)
    requires
        0 <= i < chunks.len(),
    ensures
        chunks.take(i + 1).flatten() == chunks.take(i).flatten() + chunks[i],
        encode_utf8(chunks.take(i + 1).flatten()).len() <= encode_utf8(chunks.flatten()).len(),
        encode_utf8(chunks.take(i + 1).flatten()) == encode_utf8(chunks.take(i).flatten())
            + encode_utf8(chunks[i]),
{
    assert(chunks.take(i + 1) =~= chunks.take(i).push(chunks[i]));
    chunks.take(i).lemma_flatten_push(chunks[i]);
    lemma_encode_concat(chunks.take(i).flatten(), chunks[i]);
    assert(chunks =~= chunks.take(i + 1) + chunks.skip(i + 1));
    lemma_flatten_concat(chunks.take(i + 1), chunks.skip(i + 1));
    lemma_encode_concat(chunks.take(i + 1).flatten(), chunks.skip(i + 1).flatten());
}

/// The text before char `k` of chunk `i`: the chunks before it, then the first
/// `k` chars of chunk `i`.
proof fn lemma_chunk_prefix_text(chunks: Seq<Seq<char>>, i: int, k: int)
    requires
        0 <= i < chunks.len(),
        0 <= k <= chunks[i].len(),
    ensures
        chunks.flatten().take(chunks.take(i).flatten().len() + k) == chunks.take(i).flatten()
            + chunks[i].take(k),
{
    lemma_chunk_chars_at(chunks, i);
    lemma_chunk_prefix(chunks, i);
    let pre = chunks.take(i).flatten();
    let t = chunks.flatten();
    assert(chunks =~= chunks.take(i + 1) + chunks.skip(i + 1));
    lemma_flatten_concat(chunks.take(i + 1), chunks.skip(i + 1));
    assert(t.take(pre.len() + k) =~= pre + chunks[i].take(k));
}

impl Rope {
    /// The UTF-8 bytes of the text, gathered from the chunks.
    fn collect_bytes(&self) -> (r: Vec<u8>)
        ensures
            r@ == self.bytes(),
    {
        let ghost chunks = self.chunk_texts();
        let mut out: Vec<u8> = Vec::new();
        let n = self.chunks.len();
        proof {
            assert(chunks.take(0) =~= Seq::<Seq<char>>::empty());
            assert(encode_utf8(Seq::<char>::empty()) =~= Seq::<u8>::empty());
        }
        for i in 0..n
            invariant
                n == chunks.len(),
                chunks == self.chunk_texts(),
                out@ == encode_utf8(chunks.take(i as int).flatten()),
        {
            proof {
                lemma_chunk_prefix(chunks, i as int);
                assert(self.chunks@[i as int]@ == chunks[i as int]);
            }
            let bs = self.chunks[i].as_str().as_bytes();
            let m = bs.len();
            let ghost before = out@;
            for j in 0..m
                invariant
                    m == bs@.len(),
                    out@ == before + bs@.take(j as int),
            {
                out.push(bs[j]);
                proof {
                    assert(bs@.take(j + 1) =~= bs@.take(j as int).push(bs@[j as int]));
                }
            }
            proof {
                assert(bs@.take(m as int) =~= bs@);
            }
        }
        proof {
            assert(chunks.take(n as int) =~= chunks);
        }
        out
    }

    /// The number of bytes of the text.
    pub fn len_bytes(&self) -> (r: usize)
        ensures
            r == self.bytes().len(),
    {
        proof {
            use_type_invariant(self);
        }
        let ghost chunks = self.chunk_texts();
        let n = self.chunks.len();
        let mut total: usize = 0;
        proof {
            assert(chunks.take(0) =~= Seq::<Seq<char>>::empty());
            assert(encode_utf8(Seq::<char>::empty()) =~= Seq::<u8>::empty());
        }
        for i in 0..n
            invariant
                n == chunks.len(),
                chunks == self.chunk_texts(),
                encode_utf8(chunks.flatten()).len() <= isize::MAX,
                total == encode_utf8(chunks.take(i as int).flatten()).len(),
        {
            proof {
                lemma_chunk_prefix(chunks, i as int);
                assert(self.chunks@[i as int]@ == chunks[i as int]);
            }
            total = total + self.chunks[i].as_str().len();
        }
        proof {
            assert(chunks.take(n as int) =~= chunks);
        }
        total
    }

    /// Walks the chars of the text chunk by chunk from the start, and stops before
    /// the first char that would take the walk past `max_chars` chars or
    /// `max_utf16` UTF-16 code units. Returns the chars, bytes and UTF-16 code
    /// units walked.
    fn locate(&self, max_chars: usize, max_utf16: usize) -> (r: (usize, usize, usize))
        ensures
            r.0 <= self@.len(),
            r.0 <= max_chars,
            r.1 == byte_offset(self@, r.0 as int),
            r.2 == utf16_len(self@.take(r.0 as int)),
            r.2 <= max_utf16,
            r.0 == self@.len() || r.0 == max_chars || utf16_len(self@.take(r.0 + 1)) > max_utf16,
    {
        proof {
            use_type_invariant(self);
        }
        let ghost chunks = self.chunk_texts();
        let ghost t = self@;
        let n = self.chunks.len();
        let mut c0: usize = 0;
        let mut b0: usize = 0;
        let mut u0: usize = 0;
        proof {
            assert(chunks.take(0) =~= Seq::<Seq<char>>::empty());
            assert(t.take(0) =~= Seq::<char>::empty());
            assert(encode_utf8(Seq::<char>::empty()) =~= Seq::<u8>::empty());
            lemma_utf16_le_bytes(t, t.len() as int);
            lemma_byte_offset_mono(t, t.len() as int, t.len() as int);
        }
        for i in 0..n
            invariant
                n == chunks.len(),
                chunks == self.chunk_texts(),
                t == chunks.flatten(),
                encode_utf8(t).len() <= isize::MAX,
                c0 == chunks.take(i as int).flatten().len(),
                c0 <= t.len(),
                c0 <= max_chars,
                b0 == byte_offset(t, c0 as int),
                u0 == utf16_len(t.take(c0 as int)),
                u0 <= max_utf16,
        {
            proof {
                lemma_chunk_chars_at(chunks, i as int);
                lemma_chunk_prefix(chunks, i as int);
                assert(self.chunks@[i as int]@ == chunks[i as int]);
                lemma_chunk_prefix_text(chunks, i as int, 0);
                assert(chunks[i as int].take(0) =~= Seq::<char>::empty());
                assert(chunks.take(i as int).flatten() + Seq::<char>::empty() =~= chunks.take(
                    i as int,
                ).flatten());
            }
            let ghost cs = chunks[i as int];
            let ghost pre = chunks.take(i as int).flatten();
            let bytes = self.chunks[i].as_str().as_bytes();
            let (k, p, u) = walk_chars(bytes, Ghost(cs), max_chars - c0, max_utf16 - u0);
            proof {
                lemma_chunk_prefix_text(chunks, i as int, k as int);
                lemma_encode_concat(pre, cs.take(k as int));
                lemma_utf16_len_concat(pre, cs.take(k as int));
                lemma_byte_offset_mono(t, (c0 + k) as int, t.len() as int);
                lemma_utf16_le_bytes(t, (c0 + k) as int);
                lemma_byte_offset_mono(cs, k as int, cs.len() as int);
                if k < cs.len() {
                    lemma_chunk_prefix_text(chunks, i as int, k + 1);
                    lemma_utf16_len_concat(pre, cs.take(k + 1));
                }
            }
            if p < bytes.len() {
                return (c0 + k, b0 + p, u0 + u);
            }
            c0 = c0 + k;
            b0 = b0 + p;
            u0 = u0 + u;
            proof {
                assert(cs.take(k as int) =~= cs);
            }
        }
        proof {
            assert(chunks.take(n as int) =~= chunks);
        }
        (c0, b0, u0)
    }

    /// The number of chars of the text.
    pub fn len_chars(&self) -> (r: usize)
        ensures
            r == self@.len(),
    {
        proof {
            use_type_invariant(self);
            lemma_utf16_le_bytes(self@, self@.len() as int);
            lemma_byte_offset_mono(self@, self@.len() as int, self@.len() as int);
        }
        let r = self.locate(usize::MAX, usize::MAX);
        proof {
            if r.0 < self@.len() {
                lemma_utf16_le_bytes(self@, r.0 + 1);
                lemma_byte_offset_mono(self@, r.0 + 1, self@.len() as int);
            }
        }
        r.0
    }

    /// The number of UTF-16 code units of the text.
    pub fn len_utf16_cu(&self) -> (r: usize)
        ensures
            r == utf16_len(self@),
    {
        proof {
            use_type_invariant(self);
        }
        let r = self.locate(usize::MAX, usize::MAX);
        proof {
            if r.0 < self@.len() {
                lemma_utf16_le_bytes(self@, r.0 + 1);
                lemma_byte_offset_mono(self@, r.0 + 1, self@.len() as int);
            }
            assert(self@.take(self@.len() as int) =~= self@);
        }
        r.2
    }

    /// The byte offset of char index `char_idx`.
    pub fn char_to_byte(&self, char_idx: usize) -> (r: usize)
        requires
            char_idx <= self@.len(),
        ensures
            r == byte_offset(self@, char_idx as int),
    {
        proof {
            use_type_invariant(self);
        }
        let r = self.locate(char_idx, usize::MAX);
        proof {
            if r.0 < char_idx {
                lemma_utf16_le_bytes(self@, r.0 + 1);
                lemma_byte_offset_mono(self@, r.0 + 1, self@.len() as int);
            }
        }
        r.1
    }

    /// The UTF-16 code unit offset of char index `char_idx`.
    pub fn char_to_utf16_cu(&self, char_idx: usize) -> (r: usize)
        requires
            char_idx <= self@.len(),
        ensures
            r == utf16_len(self@.take(char_idx as int)),
    {
        proof {
            use_type_invariant(self);
        }
        let r = self.locate(char_idx, usize::MAX);
        proof {
            if r.0 < char_idx {
                lemma_utf16_le_bytes(self@, r.0 + 1);
                lemma_byte_offset_mono(self@, r.0 + 1, self@.len() as int);
            }
        }
        r.2
    }

    /// The char index that UTF-16 code unit index `utf16_idx` falls in; an index in
    /// the middle of a surrogate pair gives the char of that pair.
    pub fn utf16_cu_to_char(&self, utf16_idx: usize) -> (r: usize)
        requires
            utf16_idx <= utf16_len(self@),
        ensures
            utf16_floor(self@, utf16_idx as int, r as int),
    {
        proof {
            use_type_invariant(self);
        }
        let r = self.locate(usize::MAX, utf16_idx);
        proof {
            if r.0 < self@.len() && r.0 == usize::MAX {
                lemma_utf16_le_bytes(self@, r.0 + 1);
                lemma_byte_offset_mono(self@, r.0 + 1, self@.len() as int);
            }
        }
        r.0
    }
}

/// Mapping a char index to its UTF-16 offset and back gives the char index again.
pub proof fn lemma_utf16_char_roundtrip(cs: Seq<char>, i: int, r: int)
    requires
        0 <= i <= cs.len(),
        utf16_floor(cs, utf16_len(cs.take(i)) as int, r),
    ensures
        r == i,
{
    if r + 1 < i {
        lemma_utf16_prefix_strict(cs, r + 1, i);
    } else if r > i {
        lemma_utf16_prefix_strict(cs, i, r);
    }
}

// ------------------------------------------------------------------
// Line breaks.

/// The number of line breaks that the byte-level recognizer finds in
/// `bytes[lo..hi]`.
fn count_breaks(bytes: &[u8], lo: usize, hi: usize) -> (r: usize)
    requires
        lo <= hi <= bytes@.len(),
    ensures
        r == scan_breaks(bytes@.subrange(lo as int, hi as int)),
        r <= hi - lo,
{
    let ghost b = bytes@;
    let mut count: usize = 0;
    let mut i = lo;
    while i < hi
        invariant
            b == bytes@,
            lo <= i <= hi <= b.len(),
            count + scan_breaks(b.subrange(i as int, hi as int)) == scan_breaks(
                b.subrange(lo as int, hi as int),
            ),
            count <= i - lo,
        decreases hi - i,
    {
        let ghost t = b.subrange(i as int, hi as int);
        assert(t[0] == b[i as int]);
        assert(t.skip(1) =~= b.subrange(i + 1, hi as int));
        let x = bytes[i];
        if x == 0x0A || x == 0x0B || x == 0x0C {
            count = count + 1;
            i = i + 1;
        } else if x == 0x0D {
            count = count + 1;
            if i + 1 < hi && bytes[i + 1] == 0x0A {
                assert(t[1] == b[i + 1]);
                assert(t.skip(2) =~= b.subrange(i + 2, hi as int));
                i = i + 2;
            } else {
                i = i + 1;
            }
        } else if x == 0xC2 && i + 1 < hi && bytes[i + 1] == 0x85 {
            assert(t[1] == b[i + 1]);
            assert(t.skip(2) =~= b.subrange(i + 2, hi as int));
            count = count + 1;
            i = i + 2;
        } else if x == 0xE2 && hi - i > 2 && bytes[i + 1] == 0x80 && (bytes[i + 2] == 0xA8
            || bytes[i + 2] == 0xA9) {
            assert(t[1] == b[i + 1]);
            assert(t[2] == b[i + 2]);
            assert(t.skip(3) =~= b.subrange(i + 3, hi as int));
            count = count + 1;
            i = i + 3;
        } else {
            if x == 0xC2 && i + 1 < hi {
                assert(t[1] == b[i + 1]);
            }
            if x == 0xE2 && hi - i > 2 {
                assert(t[1] == b[i + 1]);
                assert(t[2] == b[i + 2]);
            }
            i = i + 1;
        }
    }
    proof {
        assert(b.subrange(hi as int, hi as int) =~= Seq::<u8>::empty());
    }
    count
}

/// A view of a char range of a rope.
pub struct RopeSlice<'a> {
    rope: &'a Rope,
    start: usize,
    end: usize,
}

impl<'a> RopeSlice<'a> {
    /// The char range lies within the rope.
    #[verifier::type_invariant]
    spec fn in_bounds(&self) -> bool {
        self.start <= self.end <= self.rope@.len()
    }

    /// The text of the rope that the slice views.
    pub closed spec fn source(&self) -> Seq<char> {
        self.rope@
    }

    /// The char index where the slice starts in its rope.
    pub closed spec fn start_char(&self) -> int {
        self.start as int
    }

    /// The char index where the slice ends in its rope.
    pub closed spec fn end_char(&self) -> int {
        self.end as int
    }
}

impl<'a> View for RopeSlice<'a> {
    type V = Seq<char>;

    /// The text of the slice.
    closed spec fn view(&self) -> Seq<char> {
        self.rope@.subrange(self.start as int, self.end as int)
    }
}

impl Rope {
    /// The slice of chars `start..end`.
    pub fn slice(&self, start: usize, end: usize) -> (r: RopeSlice<'_>)
        requires
            start <= end <= self@.len(),
        ensures
            r@ == self@.subrange(start as int, end as int),
            r.source() == self@,
            r.start_char() == start,
            r.end_char() == end,
    {
        RopeSlice { rope: self, start, end }
    }

    /// The number of lines of the text.
    pub fn len_lines(&self) -> (r: usize)
        ensures
            r == line_count(self@),
    {
        let n = self.len_chars();
        let s = self.slice(0, n);
        proof {
            assert(self@.subrange(0, n as int) =~= self@);
        }
        s.len_lines()
    }
}

/// `x` held within `lo..=hi`.
pub open spec fn clamp(x: int, lo: int, hi: int) -> int {
    if x < lo {
        lo
    } else if x > hi {
        hi
    } else {
        x
    }
}

/// Where chunk `i` lies in the text: its chars follow the chars of the chunks
/// before it.
proof fn lemma_chunk_chars_at(chunks: Seq<Seq<char>>, i: int)
    requires
        0 <= i < chunks.len(),
    ensures
        ({
            let c0 = chunks.take(i).flatten().len() as int;
            &&& c0 + chunks[i].len() == chunks.take(i + 1).flatten().len()
            &&& c0 + chunks[i].len() <= chunks.flatten().len()
            &&& chunks.flatten().subrange(c0, c0 + chunks[i].len()) == chunks[i]
        }),
{
    lemma_chunk_prefix(chunks, i);
    assert(chunks =~= chunks.take(i + 1) + chunks.skip(i + 1));
    lemma_flatten_concat(chunks.take(i + 1), chunks.skip(i + 1));
    let c0 = chunks.take(i).flatten().len() as int;
    assert(chunks.flatten().subrange(c0, c0 + chunks[i].len()) =~= chunks[i]);
}

/// The number of chars encoded in `bytes`.
fn char_len(bytes: &[u8], Ghost(cs): Ghost<Seq<char>>) -> (r: usize)
    requires
        bytes@ == encode_utf8(cs),
    ensures
        r == cs.len(),
{
    let r = walk_chars(bytes, Ghost(cs), usize::MAX, usize::MAX);
    proof {
        if r.0 < cs.len() {
            lemma_utf16_le_bytes(cs, r.0 + 1);
            lemma_byte_offset_mono(cs, r.0 + 1, cs.len() as int);
        }
    }
    r.0
}

/// The byte offset of char index `k` in the chars encoded in `bytes`.
fn walk_to(bytes: &[u8], Ghost(cs): Ghost<Seq<char>>, k: usize) -> (r: usize)
    requires
        bytes@ == encode_utf8(cs),
        k <= cs.len(),
    ensures
        r == byte_offset(cs, k as int),
        r <= bytes@.len(),
{
    let r = walk_chars(bytes, Ghost(cs), k, usize::MAX);
    proof {
        if r.0 < k {
            lemma_utf16_le_bytes(cs, r.0 + 1);
            lemma_byte_offset_mono(cs, r.0 + 1, cs.len() as int);
        }
        lemma_byte_offset_mono(cs, k as int, cs.len() as int);
    }
    r.1
}

/// For a chunk whose chars `cs` are encoded in `bytes` and start at char `c0`
/// of the text: the byte range within the chunk of its chars that lie in the
/// char range `start..end`, and the chunk's char length.
fn chunk_piece(bytes: &[u8], Ghost(cs): Ghost<Seq<char>>, c0: usize, start: usize, end: usize) -> (r: (
    usize,
    usize,
    usize,
))
    requires
        bytes@ == encode_utf8(cs),
        start <= end,
    ensures
        r.2 == cs.len(),
        r.0 == byte_offset(cs, clamp(start - c0, 0, cs.len() as int)),
        r.1 == byte_offset(cs, clamp(end - c0, 0, cs.len() as int)),
        r.0 <= r.1 <= bytes@.len(),
{
    let len = char_len(bytes, Ghost(cs));
    let a = if start <= c0 {
        0
    } else if start - c0 >= len {
        len
    } else {
        start - c0
    };
    let b = if end <= c0 {
        0
    } else if end - c0 >= len {
        len
    } else {
        end - c0
    };
    let lo = walk_to(bytes, Ghost(cs), a);
    let hi = walk_to(bytes, Ghost(cs), b);
    proof {
        lemma_byte_offset_mono(cs, a as int, b as int);
    }
    (lo, hi, len)
}

/// The piece of a chunk that falls in a char range, in terms of the text.
proof fn lemma_piece(t: Seq<char>, cs: Seq<char>, c0: int, start: int, end: int)
    requires
        0 <= c0,
        c0 + cs.len() <= t.len(),
        t.subrange(c0, c0 + cs.len()) == cs,
        0 <= start <= end <= t.len(),
    ensures
        ({
            let lo = clamp(start - c0, 0, cs.len() as int);
            let hi = clamp(end - c0, 0, cs.len() as int);
            let a = clamp(c0, start, end);
            let b = clamp(c0 + cs.len(), start, end);
            &&& lo <= hi
            &&& (lo < hi ==> a == c0 + lo && b == c0 + hi)
            &&& (lo == hi ==> a == b)
            &&& start <= a <= b <= end
            &&& t.subrange(start, b) == t.subrange(start, a) + cs.subrange(lo, hi)
        }),
{
    let lo = clamp(start - c0, 0, cs.len() as int);
    let hi = clamp(end - c0, 0, cs.len() as int);
    let a = clamp(c0, start, end);
    let b = clamp(c0 + cs.len(), start, end);
    if lo < hi {
        assert(t.subrange(a, b) =~= cs.subrange(lo, hi));
        assert(t.subrange(start, b) =~= t.subrange(start, a) + t.subrange(a, b));
    } else {
        assert(cs.subrange(lo, hi) =~= Seq::<char>::empty());
        assert(t.subrange(start, b) =~= t.subrange(start, a) + cs.subrange(lo, hi));
    }
}

impl<'a> RopeSlice<'a> {
    /// The number of chars of the slice.
    pub fn len_chars(&self) -> (r: usize)
        ensures
            r == self@.len(),
    {
        proof {
            use_type_invariant(self);
        }
        self.end - self.start
    }

    /// The number of lines of the slice: its line breaks, plus one. The breaks are
    /// counted chunk by chunk; a CR that ends one chunk and the LF that starts the
    /// next are one break.
    pub fn len_lines(&self) -> (r: usize)
        ensures
            r == line_count(self@),
    {
        proof {
            use_type_invariant(self);
            use_type_invariant(self.rope);
        }
        let ghost chunks = self.rope.chunk_texts();
        let ghost t = self.rope@;
        let ghost s = self.start as int;
        let ghost e = self.end as int;
        let n = self.rope.chunks.len();
        let mut c0: usize = 0;
        let mut count: usize = 0;
        let mut last_cr = false;
        proof {
            lemma_utf16_le_bytes(t, t.len() as int);
            lemma_byte_offset_mono(t, t.len() as int, t.len() as int);
            assert(chunks.take(0) =~= Seq::<Seq<char>>::empty());
            assert(t.subrange(s, s) =~= Seq::<char>::empty());
        }
        for i in 0..n
            invariant
                n == chunks.len(),
                chunks == self.rope.chunk_texts(),
                t == chunks.flatten(),
                s == self.start,
                e == self.end,
                0 <= s <= e <= t.len(),
                t.len() <= isize::MAX,
                c0 == chunks.take(i as int).flatten().len(),
                c0 <= t.len(),
                count == line_breaks(t.subrange(s, clamp(c0 as int, s, e))),
                last_cr == (clamp(c0 as int, s, e) > s && t[clamp(c0 as int, s, e) - 1] == '\r'),
        {
            proof {
                lemma_chunk_chars_at(chunks, i as int);
                assert(self.rope.chunks@[i as int]@ == chunks[i as int]);
            }
            let ghost cs = chunks[i as int];
            let bytes = self.rope.chunks[i].as_str().as_bytes();
            let (lo, hi, len) = chunk_piece(bytes, Ghost(cs), c0, self.start, self.end);
            let ghost a = clamp(c0 as int, s, e);
            let ghost b = clamp(c0 + len, s, e);
            let ghost plo = clamp(s - c0, 0, len as int);
            let ghost phi = clamp(e - c0, 0, len as int);
            let ghost old_text = t.subrange(s, a);
            let ghost piece = cs.subrange(plo, phi);
            proof {
                lemma_piece(t, cs, c0 as int, s, e);
                lemma_line_breaks_concat(old_text, piece);
                lemma_line_breaks_le_len(old_text);
                lemma_line_breaks_le_len(piece);
                if plo < phi {
                    lemma_byte_offset_mono(cs, plo, phi);
                }
            }
            if lo < hi {
                proof {
                    lemma_encode_subrange(cs, plo, phi);
                    lemma_scan_breaks_encode(piece);
                    lemma_lf_cr_bytes(piece);
                    assert(encode_utf8(piece)[0] == bytes@[lo as int]);
                    assert(encode_utf8(piece).last() == bytes@[hi - 1]);
                    assert(piece.last() == t[b - 1]);
                    if a > s {
                        assert(old_text.last() == t[a - 1]);
                    }
                }
                let k = count_breaks(bytes, lo, hi);
                if last_cr && bytes[lo] == 0x0A {
                    count = count + k - 1;
                } else {
                    count = count + k;
                }
                last_cr = bytes[hi - 1] == 0x0D;
            }
            proof {
                if lo >= hi {
                    assert(piece =~= Seq::<char>::empty());
                    assert(old_text + piece =~= old_text);
                }
            }
            c0 = c0 + len;
        }
        proof {
            assert(chunks.take(n as int) =~= chunks);
            lemma_line_breaks_le_len(t.subrange(s, e));
        }
        count + 1
    }

    /// The UTF-8 bytes of the slice, gathered chunk by chunk.
    pub fn to_bytes(&self) -> (r: Vec<u8>)
        ensures
            r@ == encode_utf8(self@),
    {
        proof {
            use_type_invariant(self);
            use_type_invariant(self.rope);
        }
        let ghost chunks = self.rope.chunk_texts();
        let ghost t = self.rope@;
        let ghost s = self.start as int;
        let ghost e = self.end as int;
        let n = self.rope.chunks.len();
        let mut c0: usize = 0;
        let mut out: Vec<u8> = Vec::new();
        proof {
            lemma_utf16_le_bytes(t, t.len() as int);
            lemma_byte_offset_mono(t, t.len() as int, t.len() as int);
            assert(chunks.take(0) =~= Seq::<Seq<char>>::empty());
            assert(t.subrange(s, s) =~= Seq::<char>::empty());
            assert(encode_utf8(Seq::<char>::empty()) =~= Seq::<u8>::empty());
        }
        for i in 0..n
            invariant
                n == chunks.len(),
                chunks == self.rope.chunk_texts(),
                t == chunks.flatten(),
                s == self.start,
                e == self.end,
                0 <= s <= e <= t.len(),
                t.len() <= isize::MAX,
                c0 == chunks.take(i as int).flatten().len(),
                c0 <= t.len(),
                out@ == encode_utf8(t.subrange(s, clamp(c0 as int, s, e))),
        {
            proof {
                lemma_chunk_chars_at(chunks, i as int);
                assert(self.rope.chunks@[i as int]@ == chunks[i as int]);
            }
            let ghost cs = chunks[i as int];
            let bytes = self.rope.chunks[i].as_str().as_bytes();
            let (lo, hi, len) = chunk_piece(bytes, Ghost(cs), c0, self.start, self.end);
            let ghost a = clamp(c0 as int, s, e);
            let ghost plo = clamp(s - c0, 0, len as int);
            let ghost phi = clamp(e - c0, 0, len as int);
            let ghost piece = cs.subrange(plo, phi);
            let ghost before = out@;
            proof {
                lemma_piece(t, cs, c0 as int, s, e);
                lemma_encode_subrange(cs, plo, phi);
                lemma_encode_concat(t.subrange(s, a), piece);
            }
            for j in lo..hi
                invariant
                    lo <= hi <= bytes@.len(),
                    out@ == before + bytes@.subrange(lo as int, j as int),
            {
                out.push(bytes[j]);
                proof {
                    assert(bytes@.subrange(lo as int, j + 1) =~= bytes@.subrange(lo as int, j as int).push(
                        bytes@[j as int],
                    ));
                }
            }
            c0 = c0 + len;
        }
        proof {
            assert(chunks.take(n as int) =~= chunks);
        }
        out
    }

    /// Whether the two slices hold the same text.
    pub fn text_eq(&self, other: &RopeSlice) -> (r: bool)
        ensures
            r == (self@ == other@),
    {
        let a = self.to_bytes();
        let b = other.to_bytes();
        if a.len() != b.len() {
            return false;
        }
        let n = a.len();
        for i in 0..n
            invariant
                n == a@.len(),
                n == b@.len(),
                a@ == encode_utf8(self@),
                b@ == encode_utf8(other@),
                a@.take(i as int) == b@.take(i as int),
        {
            if a[i] != b[i] {
                proof {
                    if self@ == other@ {
                        assert(a@ == b@);
                        assert(a@[i as int] == b@[i as int]);
                    }
                }
                return false;
            }
            proof {
                assert(a@.take(i + 1) =~= a@.take(i as int).push(a@[i as int]));
                assert(b@.take(i + 1) =~= b@.take(i as int).push(b@[i as int]));
            }
        }
        proof {
            assert(a@.take(n as int) =~= a@);
            assert(b@.take(n as int) =~= b@);
            lemma_encode_injective(self@, other@);
        }
        true
    }
}

impl<'a, 'b> PartialEq<RopeSlice<'b>> for RopeSlice<'a> {
    fn eq(&self, other: &RopeSlice<'b>) -> (r: bool) {
        self.text_eq(other)
    }
}

impl<'a, 'b> PartialEqSpecImpl<RopeSlice<'b>> for RopeSlice<'a> {
    open spec fn obeys_eq_spec() -> bool {
        true
    }

    /// Two slices are equal when they hold the same text.
    open spec fn eq_spec(&self, other: &RopeSlice<'b>) -> bool {
        self@ == other@
    }
}

// ------------------------------------------------------------------
// Lines.

/// Where a walk over the lines of a rope stands.
#[derive(Clone, Copy)]
struct LineCursor {
    char_pos: usize,
    byte_pos: usize,
    line_idx: usize,
}

/// The lines of a rope, in order, each with its line break.
pub struct Lines<'a> {
    rope: &'a Rope,
    bytes: Vec<u8>,
    at: LineCursor,
    total_lines: usize,
}

impl<'a> Lines<'a> {
    #[verifier::type_invariant]
    spec fn consistent(&self) -> bool {
        &&& self.bytes@ == self.rope.bytes()
        &&& self.at.char_pos <= self.rope@.len()
        &&& self.at.byte_pos == byte_offset(self.rope@, self.at.char_pos as int)
        &&& self.at.line_idx <= self.total_lines
        &&& self.at.line_idx < self.total_lines ==> self.total_lines - self.at.line_idx
            == line_count(self.rope@.skip(self.at.char_pos as int))
    }

    /// The text whose lines are walked.
    pub closed spec fn text(&self) -> Seq<char> {
        self.rope@
    }

    /// The char index where the next line starts.
    pub closed spec fn pos(&self) -> int {
        self.at.char_pos as int
    }

    /// The number of lines not yet yielded.
    pub closed spec fn remaining(&self) -> nat {
        (self.total_lines - self.at.line_idx) as nat
    }
}

impl Rope {
    /// The lines of the text, from the first.
    pub fn lines(&self) -> (r: Lines<'_>)
        ensures
            r.text() == self@,
            r.pos() == 0,
            r.remaining() == line_count(self@),
    {
        let bytes = self.collect_bytes();
        let total = self.len_lines();
        proof {
            assert(self@.skip(0) =~= self@);
            assert(self@.take(0) =~= Seq::<char>::empty());
            assert(encode_utf8(Seq::<char>::empty()) =~= Seq::<u8>::empty());
        }
        Lines {
            rope: self,
            bytes,
            at: LineCursor { char_pos: 0, byte_pos: 0, line_idx: 0 },
            total_lines: total,
        }
    }
}

impl<'a> Lines<'a> {
    /// The number of lines not yet yielded.
    pub fn len(&self) -> (r: usize)
        ensures
            r == self.remaining(),
    {
        proof {
            use_type_invariant(self);
        }
        self.total_lines - self.at.line_idx
    }

    /// The next line, with its line break, or `None` when every line has been
    /// yielded.
    pub fn next(&mut self) -> (r: Option<RopeSlice<'a>>)
        ensures
            final(self).text() == old(self).text(),
            old(self).remaining() == 0 ==> r is None && final(self).remaining() == 0
                && final(self).pos() == old(self).pos(),
            old(self).remaining() > 0 ==> {
                let t = old(self).text();
                let p = old(self).pos();
                let e = p + first_line_len(t.skip(p));
                &&& r is Some
                &&& r->0@ == t.subrange(p, e)
                &&& final(self).pos() == e
                &&& final(self).remaining() == old(self).remaining() - 1
            },
    {
        proof {
            use_type_invariant(&*self);
            use_type_invariant(self.rope);
        }
        if self.at.line_idx >= self.total_lines {
            return None;
        }
        let ghost t = self.rope@;
        let ghost p0 = self.at.char_pos as int;
        let len = self.bytes.len();
        let mut k = self.at.char_pos;
        let mut p = self.at.byte_pos;
        let mut found = false;
        proof {
            lemma_byte_offset_mono(t, k as int, t.len() as int);
            lemma_utf16_le_bytes(t, t.len() as int);
            lemma_byte_offset_mono(t, t.len() as int, t.len() as int);
            assert(t.skip(p0).skip(0) =~= t.skip(p0));
        }
        while !found && p < len
            invariant
                self.bytes@ == encode_utf8(t),
                len == self.bytes@.len(),
                t == self.rope@,
                t.len() <= isize::MAX,
                p0 <= k <= t.len(),
                p == byte_offset(t, k as int),
                (p < len) == (k < t.len()),
                found ==> first_line_len(t.skip(p0)) == k - p0,
                !found ==> first_line_len(t.skip(p0)) == (k - p0) + first_line_len(t.skip(k as int)),
            decreases t.len() - k,
        {
            proof {
                lemma_char_break_bytes(t, k as int);
                lemma_char_walk(t, k as int);
                lemma_byte_offset_mono(t, k + 1, t.len() as int);
                let s = t.skip(k as int);
                assert(s[0] == t[k as int]);
                assert(s.skip(1) =~= t.skip(k + 1));
                if k + 1 < t.len() {
                    lemma_char_break_bytes(t, k + 1);
                    assert(s[1] == t[k + 1]);
                    assert(s.skip(2) =~= t.skip(k + 2));
                    lemma_char_walk(t, k + 1);
                    lemma_byte_offset_mono(t, k + 2, t.len() as int);
                }
            }
            let x = self.bytes[p];
            let w = lead_width_of(x);
            if w == 1 && x == 0x0D {
                if p + 1 < len && self.bytes[p + 1] == 0x0A {
                    k = k + 2;
                    p = p + 2;
                } else {
                    k = k + 1;
                    p = p + 1;
                }
                found = true;
            } else if (w == 1 && 0x0A <= x && x <= 0x0C) || (w == 2 && x == 0xC2 && self.bytes[p
                + 1] == 0x85) || (w == 3 && x == 0xE2 && self.bytes[p + 1] == 0x80 && (self.bytes[p
                + 2] == 0xA8 || self.bytes[p + 2] == 0xA9)) {
                k = k + 1;
                p = p + w;
                found = true;
            } else {
                k = k + 1;
                p = p + w;
            }
        }
        proof {
            if !found {
                assert(t.skip(k as int) =~= Seq::<char>::empty());
            }
            lemma_scan_breaks_encode(t.skip(p0));
            let e = first_line_len(t.skip(p0)) as int;
            assert(t.skip(p0).skip(e) =~= t.skip(p0 + e));
        }
        let line = RopeSlice { rope: self.rope, start: self.at.char_pos, end: k };
        self.at = LineCursor { char_pos: k, byte_pos: p, line_idx: self.at.line_idx + 1 };
        Some(line)
    }
}

impl<'a> Lines<'a> {
    /// Walks the remaining lines and counts them.
    pub fn count(self) -> (r: usize)
        ensures
            r == self.remaining(),
    {
        proof {
            use_type_invariant(&self);
        }
        let mut it = self;
        let mut n: usize = 0;
        while it.len() > 0
            invariant
                n + it.remaining() == self.remaining(),
                self.remaining() <= usize::MAX,
            decreases it.remaining(),
        {
            let _line = it.next();
            n = n + 1;
        }
        n
    }
}

// ------------------------------------------------------------------
// Whole-text operations.

impl Rope {
    /// The text as a `String`.
    pub fn to_string(&self) -> (r: String)
        ensures
            r@ == self@,
    {
        let ghost chunks = self.chunk_texts();
        let mut out = String::new();
        let n = self.chunks.len();
        proof {
            assert(chunks.take(0) =~= Seq::<Seq<char>>::empty());
        }
        for i in 0..n
            invariant
                n == chunks.len(),
                chunks == self.chunk_texts(),
                out@ == chunks.take(i as int).flatten(),
        {
            proof {
                assert(chunks.take(i + 1) =~= chunks.take(i as int).push(chunks[i as int]));
                chunks.take(i as int).lemma_flatten_push(chunks[i as int]);
                assert(self.chunks@[i as int]@ == chunks[i as int]);
            }
            out.append(self.chunks[i].as_str());
        }
        proof {
            assert(chunks.take(n as int) =~= chunks);
        }
        out
    }

    /// The chunks of the rope, in order.
    pub fn chunks(&self) -> (r: Vec<&str>)
        ensures
            r@.len() == self.chunk_texts().len(),
            forall|i: int| 0 <= i < r@.len() ==> #[trigger] r@[i]@ == self.chunk_texts()[i],
    {
        let mut out: Vec<&str> = Vec::new();
        let n = self.chunks.len();
        for i in 0..n
            invariant
                n == self.chunks@.len(),
                out@.len() == i,
                forall|k: int| 0 <= k < i ==> #[trigger] out@[k]@ == self.chunk_texts()[k],
        {
            out.push(self.chunks[i].as_str());
        }
        out
    }

    /// Removes the chars `start..end`. The rope is cut anew: the text before the
    /// range, then the text after it, each in leaves as `RopeBuilder::append`
    /// cuts them.
    pub fn remove(&mut self, start: usize, end: usize)
        requires
            start <= end <= old(self)@.len(),
        ensures
            final(self)@ == old(self)@.take(start as int) + old(self)@.skip(end as int),
            final(self).chunk_bytes() == leaf_layout(
                encode_utf8(old(self)@.take(start as int)),
                MAX_CHUNK_BYTES as nat,
            ) + leaf_layout(encode_utf8(old(self)@.skip(end as int)), MAX_CHUNK_BYTES as nat),
    {
        proof {
            use_type_invariant(&*self);
        }
        let ghost t = self@;
        let whole = self.to_string();
        let text = whole.as_str();
        let len = text.as_bytes().len();
        let bs = self.char_to_byte(start);
        let be = self.char_to_byte(end);
        proof {
            lemma_byte_offset_is_char_boundary(t, 0);
            lemma_byte_offset_is_char_boundary(t, start as int);
            lemma_byte_offset_is_char_boundary(t, end as int);
            lemma_byte_offset_is_char_boundary(t, t.len() as int);
            lemma_byte_offset_mono(t, start as int, end as int);
            lemma_byte_offset_mono(t, end as int, t.len() as int);
            lemma_byte_offset_mono(t, 0, start as int);
        }
        let head = substr(text, 0, bs);
        let tail = substr(text, be, len);
        proof {
            lemma_encode_subrange(t, 0, start as int);
            lemma_encode_subrange(t, end as int, t.len() as int);
            assert(t.subrange(0, start as int) =~= t.take(start as int));
            assert(t.subrange(end as int, t.len() as int) =~= t.skip(end as int));
            lemma_encode_injective(head@, t.take(start as int));
            lemma_encode_injective(tail@, t.skip(end as int));
            assert(Seq::<Seq<char>>::empty().flatten() =~= Seq::<char>::empty());
            assert(encode_utf8(Seq::<char>::empty()) =~= Seq::<u8>::empty());
        }
        let mut b = RopeBuilder::new();
        proof {
            assert(chunk_bytes_of(Seq::<Seq<char>>::empty()) =~= Seq::<Seq<u8>>::empty());
        }
        b.append(head);
        proof {
            assert(Seq::<char>::empty() + head@ =~= head@);
            assert(Seq::<Seq<u8>>::empty() + leaf_layout(head.spec_bytes(), MAX_CHUNK_BYTES as nat)
                =~= leaf_layout(head.spec_bytes(), MAX_CHUNK_BYTES as nat));
        }
        b.append(tail);
        *self = b.finish();
    }
}

// ------------------------------------------------------------------
// Hashing.

/// The byte length of the blocks that a rope's text is hashed in.
pub const HASH_BLOCK_BYTES: usize = 256;

/// The bytes `b` cut into blocks of `HASH_BLOCK_BYTES` bytes, the last one
/// possibly shorter; no block for no bytes.
pub open spec fn hash_blocks(b: Seq<u8>) -> Seq<Seq<u8>>
    decreases b.len(),
{
    if b.len() == 0 {
        Seq::empty()
    } else if b.len() <= HASH_BLOCK_BYTES {
        seq![b]
    } else {
        seq![b.take(HASH_BLOCK_BYTES as int)] + hash_blocks(b.skip(HASH_BLOCK_BYTES as int))
    }
}

/// Hashing reaches every byte of the text: the blocks, put together, are the
/// bytes; each is non-empty, at most `HASH_BLOCK_BYTES` long, and each but the
/// last is exactly `HASH_BLOCK_BYTES` long. The writes are those blocks, then
/// the single byte 0xFF.
pub proof fn lemma_hash_blocks_cover(b: Seq<u8>)
    ensures
        hash_blocks(b).flatten() == b,
        forall|k: int|
            0 <= k < hash_blocks(b).len() ==> 0 < (#[trigger] hash_blocks(b)[k]).len()
                <= HASH_BLOCK_BYTES,
        forall|k: int|
            0 <= k < hash_blocks(b).len() - 1 ==> (#[trigger] hash_blocks(b)[k]).len()
                == HASH_BLOCK_BYTES,
        hash_writes(b).drop_last() == hash_blocks(b),
        hash_writes(b).last() == seq![0xFFu8],
    decreases b.len(),
{
    let h = hash_blocks(b);
    assert(hash_writes(b).drop_last() =~= h);
    if b.len() == 0 {
        assert(h =~= Seq::<Seq<u8>>::empty());
    } else if b.len() <= HASH_BLOCK_BYTES {
        assert(h =~= seq![b]);
        h.lemma_flatten_one_element();
    } else {
        let c = b.take(HASH_BLOCK_BYTES as int);
        let rest = b.skip(HASH_BLOCK_BYTES as int);
        lemma_hash_blocks_cover(rest);
        assert(h.drop_first() =~= hash_blocks(rest));
        assert(h.first() == c);
        assert(h.flatten() == c + hash_blocks(rest).flatten());
        assert(c + rest =~= b);
        assert forall|k: int| 0 < k < h.len() implies #[trigger] h[k] == hash_blocks(rest)[k - 1] by {}
    }
}

/// The writes that hashing the text with bytes `b` makes: its blocks, then the
/// single byte 0xFF.
pub open spec fn hash_writes(b: Seq<u8>) -> Seq<Seq<u8>> {
    hash_blocks(b).push(seq![0xFFu8])
}

/// Where chunk `i` lies in the bytes of the whole text.
proof fn lemma_chunk_bytes_at(chunks: Seq<Seq<char>>, i: int)
    requires
        0 <= i < chunks.len(),
    ensures
        ({
            let b = encode_utf8(chunks.flatten());
            let pre = encode_utf8(chunks.take(i).flatten()).len() as int;
            let c = encode_utf8(chunks[i]);
            &&& pre + c.len() == encode_utf8(chunks.take(i + 1).flatten()).len()
            &&& pre + c.len() <= b.len()
            &&& b.subrange(pre, pre + c.len()) == c
        }),
{
    lemma_chunk_prefix(chunks, i);
    let b = encode_utf8(chunks.flatten());
    let p1 = encode_utf8(chunks.take(i + 1).flatten());
    assert(chunks =~= chunks.take(i + 1) + chunks.skip(i + 1));
    lemma_flatten_concat(chunks.take(i + 1), chunks.skip(i + 1));
    lemma_encode_concat(chunks.take(i + 1).flatten(), chunks.skip(i + 1).flatten());
    let pre = encode_utf8(chunks.take(i).flatten()).len() as int;
    let c = encode_utf8(chunks[i]);
    assert(b.subrange(pre, pre + c.len()) =~= c);
}

/// Hashing a block in front of more bytes: the block is written first.
proof fn lemma_hash_blocks_front(h: u64, x: Seq<u8>)
    requires
        x.len() >= HASH_BLOCK_BYTES,
    ensures
        boundary_writes(h, hash_blocks(x)) == boundary_writes(
            boundary_write(h, x.take(HASH_BLOCK_BYTES as int)),
            hash_blocks(x.skip(HASH_BLOCK_BYTES as int)),
        ),
{
    let hd = x.take(HASH_BLOCK_BYTES as int);
    if x.len() == HASH_BLOCK_BYTES {
        assert(hd =~= x);
        assert(x.skip(HASH_BLOCK_BYTES as int).len() == 0);
        assert(hash_blocks(x.skip(HASH_BLOCK_BYTES as int)) =~= Seq::<Seq<u8>>::empty());
        assert(hash_blocks(x) =~= seq![x]);
        assert(seq![x].drop_first() =~= Seq::<Seq<u8>>::empty());
    } else {
        let rest = hash_blocks(x.skip(HASH_BLOCK_BYTES as int));
        assert(hash_blocks(x) =~= seq![hd] + rest);
        assert((seq![hd] + rest).drop_first() =~= rest);
        assert((seq![hd] + rest)[0] == hd);
    }
}

/// Hashes the bytes of one chunk, `data`, which lie at `pre` in the text bytes
/// `bb`: full blocks go to `state`, the rest waits in `buffer`.
fn hash_chunk(
    data: &[u8],
    buffer: &mut Vec<u8>,
    state: &mut ChunkBoundarySensitiveHasher,
    Ghost(bb): Ghost<Seq<u8>>,
    Ghost(pre): Ghost<int>,
    Ghost(target): Ghost<u64>,
)
    requires
        0 <= pre,
        pre + data@.len() <= bb.len(),
        bb.subrange(pre, pre + data@.len()) == data@,
        old(buffer)@.len() <= HASH_BLOCK_BYTES,
        boundary_writes(old(state)@, hash_blocks(old(buffer)@ + bb.skip(pre))) == target,
    ensures
        final(buffer)@.len() <= HASH_BLOCK_BYTES,
        boundary_writes(final(state)@, hash_blocks(final(buffer)@ + bb.skip(pre + data@.len())))
            == target,
{
    let dlen = data.len();
    let mut off: usize = 0;
    while off < dlen
        invariant
            dlen == data@.len(),
            off <= dlen,
            0 <= pre,
            pre + dlen <= bb.len(),
            bb.subrange(pre, pre + dlen) == data@,
            buffer@.len() <= HASH_BLOCK_BYTES,
            boundary_writes(state@, hash_blocks(buffer@ + bb.skip(pre + off))) == target,
        decreases dlen - off, buffer@.len(),
    {
        let ghost x = buffer@ + bb.skip(pre + off);
        if buffer.len() == 0 && dlen - off >= HASH_BLOCK_BYTES {
            let head = &data[off..off + HASH_BLOCK_BYTES];
            proof {
                assert(x =~= bb.skip(pre + off));
                lemma_hash_blocks_front(state@, x);
                assert forall|k: int| 0 <= k < HASH_BLOCK_BYTES implies #[trigger] x.take(
                    HASH_BLOCK_BYTES as int,
                )[k] == head@[k] by {
                    assert(bb.subrange(pre, pre + dlen)[off + k] == bb[pre + off + k]);
                }
                assert(x.take(HASH_BLOCK_BYTES as int) =~= head@);
                assert(x.skip(HASH_BLOCK_BYTES as int) =~= buffer@ + bb.skip(
                    pre + off + HASH_BLOCK_BYTES,
                ));
            }
            state.write(head);
            off = off + HASH_BLOCK_BYTES;
        } else if buffer.len() == HASH_BLOCK_BYTES {
            proof {
                lemma_hash_blocks_front(state@, x);
                assert(x.take(HASH_BLOCK_BYTES as int) =~= buffer@);
                assert(x.skip(HASH_BLOCK_BYTES as int) =~= Seq::<u8>::empty() + bb.skip(pre + off));
            }
            state.write(buffer.as_slice());
            buffer.clear();
        } else {
            let room = HASH_BLOCK_BYTES - buffer.len();
            let take = if room < dlen - off {
                room
            } else {
                dlen - off
            };
            let ghost b0 = buffer@;
            let mut j: usize = 0;
            while j < take
                invariant
                    j <= take,
                    take <= dlen - off,
                    dlen == data@.len(),
                    b0.len() + take <= HASH_BLOCK_BYTES,
                    buffer@ == b0 + data@.subrange(off as int, off + j),
                decreases take - j,
            {
                buffer.push(data[off + j]);
                proof {
                    assert(data@.subrange(off as int, off + j + 1) =~= data@.subrange(
                        off as int,
                        off + j,
                    ).push(data@[off + j]));
                }
                j = j + 1;
            }
            proof {
                assert forall|k: int| 0 <= k < take implies #[trigger] bb[pre + off + k]
                    == data@[off + k] by {
                    assert(bb.subrange(pre, pre + dlen)[off + k] == bb[pre + off + k]);
                }
                assert(buffer@ + bb.skip(pre + off + take) =~= x);
            }
            off = off + take;
        }
    }
}

impl Rope {
    /// Hashes the text into `state`, in blocks of `HASH_BLOCK_BYTES` bytes whatever
    /// the chunk layout, then the byte 0xFF.
    pub fn hash(&self, state: &mut ChunkBoundarySensitiveHasher)
        ensures
            final(state)@ == boundary_writes(old(state)@, hash_writes(self.bytes())),
    {
        proof {
            use_type_invariant(self);
        }
        let ghost chunks = self.chunk_texts();
        let ghost bb = self.bytes();
        let ghost target = boundary_writes(state@, hash_blocks(bb));
        let mut buffer: Vec<u8> = Vec::new();
        let n = self.chunks.len();
        proof {
            assert(chunks.take(0) =~= Seq::<Seq<char>>::empty());
            assert(encode_utf8(Seq::<char>::empty()) =~= Seq::<u8>::empty());
            assert(buffer@ + bb.skip(0) =~= bb);
        }
        for i in 0..n
            invariant
                n == chunks.len(),
                chunks == self.chunk_texts(),
                bb == encode_utf8(chunks.flatten()),
                buffer@.len() <= HASH_BLOCK_BYTES,
                boundary_writes(
                    state@,
                    hash_blocks(
                        buffer@ + bb.skip(encode_utf8(chunks.take(i as int).flatten()).len() as int),
                    ),
                ) == target,
        {
            proof {
                lemma_chunk_bytes_at(chunks, i as int);
                assert(self.chunks@[i as int]@ == chunks[i as int]);
            }
            let ghost pre = encode_utf8(chunks.take(i as int).flatten()).len() as int;
            let data = self.chunks[i].as_str().as_bytes();
            hash_chunk(data, &mut buffer, state, Ghost(bb), Ghost(pre), Ghost(target));
        }
        proof {
            assert(chunks.take(n as int) =~= chunks);
            assert(bb.skip(bb.len() as int) =~= Seq::<u8>::empty());
            assert(buffer@ + bb.skip(bb.len() as int) =~= buffer@);
        }
        if buffer.len() > 0 {
            let ghost s0 = state@;
            proof {
                assert(hash_blocks(buffer@) =~= seq![buffer@]);
                assert(seq![buffer@].drop_first() =~= Seq::<Seq<u8>>::empty());
                assert(seq![buffer@][0] == buffer@);
                assert(boundary_writes(s0, seq![buffer@]) == boundary_writes(
                    boundary_write(s0, buffer@),
                    Seq::<Seq<u8>>::empty(),
                ));
            }
            state.write(buffer.as_slice());
        } else {
            proof {
                assert(hash_blocks(buffer@) =~= Seq::<Seq<u8>>::empty());
            }
        }
        proof {
            lemma_boundary_writes_push(old(state)@, hash_blocks(bb), seq![0xFFu8]);
        }
        state.write_u8(0xFF);
    }
}

} // verus!
