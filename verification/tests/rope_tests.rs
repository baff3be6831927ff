//! Tests of the rope, the hashing and the property functions on concrete values.

use ropey::etna::{
    hash_rope, property_rope_eq_chunk_invariant, property_rope_hash_chunk_invariant,
    property_slice_crlf_len_lines, rope_from_str_chunked, slow_line_count, PropertyResult,
};
use ropey::harness::{
    ensure_non_ascii, etna_check, json_report, json_str, property_names, run_all, str_eq, Metrics,
    Outcome, canonical_empty_text, canonical_latin1_text, check_lines_match_model,
    check_rope_eq_chunk_invariant, check_rope_hash_chunk_invariant, check_utf16_char_roundtrip,
    to_err,
};
use ropey::fnv_hash::{ChunkBoundarySensitiveHasher, FNV_OFFSET_BASIS};
use ropey::rope::{Rope, RopeBuilder, MAX_CHUNK_BYTES};
use std::hash::Hasher;

fn fnv_of(bytes: &[u8]) -> u64 {
    let mut h = fnv::FnvHasher::default();
    h.write(bytes);
    h.finish()
}

fn chunk_lens(r: &Rope) -> Vec<usize> {
    r.chunks().iter().map(|c| c.len()).collect()
}

#[test]
fn slow_line_count_examples() {
    assert_eq!(slow_line_count(""), 1);
    assert_eq!(slow_line_count("abc"), 1);
    assert_eq!(slow_line_count("a\nb"), 2);
    assert_eq!(slow_line_count("a\r\nb"), 2);
    assert_eq!(slow_line_count("\r\r\n"), 3);
    assert_eq!(slow_line_count("\u{0B}\u{0C}"), 3);
    assert_eq!(slow_line_count("\u{85}"), 2);
    assert_eq!(slow_line_count("\u{2028}x\u{2029}"), 3);
    // Chars whose encodings start like a break but are none.
    assert_eq!(slow_line_count("\u{80}\u{2027}é"), 1);
}

#[test]
fn from_str_cuts_max_size_chunks() {
    let text = "a".repeat(2000);
    let r = Rope::from_str(&text);
    assert_eq!(chunk_lens(&r), vec![MAX_CHUNK_BYTES, MAX_CHUNK_BYTES, 2000 - 2 * MAX_CHUNK_BYTES]);
    assert_eq!(r.to_string(), text);
    assert_eq!(chunk_lens(&Rope::from_str("")), Vec::<usize>::new());
}

#[test]
fn from_str_keeps_crlf_pairs_together() {
    let text = format!("a{}", "\r\n".repeat(600));
    let r = Rope::from_str(&text);
    assert_eq!(chunk_lens(&r), vec![MAX_CHUNK_BYTES + 1, 1201 - MAX_CHUNK_BYTES - 1]);
    assert_eq!(r.to_string(), text);
    let mut b = RopeBuilder::new();
    b.append(&text);
    assert_eq!(chunk_lens(&b.finish()), vec![985, 216]);
}

#[test]
fn chunked_ropes_extend_chunks_to_char_boundaries() {
    let r = rope_from_str_chunked("éé", 1);
    assert_eq!(r.chunks(), vec!["é", "é"]);
    let r = rope_from_str_chunked("abcdef", 4);
    assert_eq!(r.chunks(), vec!["abcd", "ef"]);
    let r = rope_from_str_chunked("aéb", 2);
    assert_eq!(r.chunks(), vec!["aé", "b"]);
    let r = rope_from_str_chunked("abc", 0);
    assert_eq!(r.chunks(), vec!["abc"]);
    assert_eq!(r.to_string(), "abc");
}

#[test]
fn char_and_utf16_metrics() {
    let r = rope_from_str_chunked("a😀b", 1);
    assert_eq!(r.len_chars(), 3);
    assert_eq!(r.len_bytes(), 6);
    assert_eq!(r.len_utf16_cu(), 4);
    assert_eq!(r.char_to_byte(2), 5);
    assert_eq!(r.char_to_byte(3), 6);
    assert_eq!(r.char_to_utf16_cu(2), 3);
    assert_eq!(r.utf16_cu_to_char(0), 0);
    assert_eq!(r.utf16_cu_to_char(1), 1);
    // Inside the surrogate pair: the char of the pair.
    assert_eq!(r.utf16_cu_to_char(2), 1);
    assert_eq!(r.utf16_cu_to_char(3), 2);
    assert_eq!(r.utf16_cu_to_char(4), 3);
}

#[test]
fn utf16_roundtrip_on_every_index() {
    let r = rope_from_str_chunked("x𝄞é字🎉\r\n", 3);
    for i in 0..=r.len_chars() {
        assert_eq!(r.utf16_cu_to_char(r.char_to_utf16_cu(i)), i);
    }
}

#[test]
fn line_counts() {
    assert_eq!(Rope::from_str("").len_lines(), 1);
    assert_eq!(Rope::from_str("abc\n").len_lines(), 2);
    assert_eq!(rope_from_str_chunked("a\nb\r\nc", 1).len_lines(), 3);
    let r = rope_from_str_chunked("x\r\ny", 1);
    // The slice ends between the CR and the LF: the CR is a break of its own.
    assert_eq!(r.slice(0, 2).len_lines(), 2);
    assert_eq!(r.slice(0, 3).len_lines(), 2);
    assert_eq!(r.slice(2, 4).len_lines(), 2);
}

#[test]
fn lines_yields_each_line_with_its_break() {
    let r = rope_from_str_chunked("a\nb\r\nc", 2);
    let mut it = r.lines();
    assert_eq!(it.len(), 3);
    assert_eq!(it.next().unwrap().to_bytes(), b"a\n".to_vec());
    assert_eq!(it.len(), 2);
    assert_eq!(it.next().unwrap().to_bytes(), b"b\r\n".to_vec());
    assert_eq!(it.next().unwrap().to_bytes(), b"c".to_vec());
    assert_eq!(it.len(), 0);
    assert!(it.next().is_none());
    let r = Rope::from_str("abc\n");
    let mut it = r.lines();
    assert_eq!(it.next().unwrap().to_bytes(), b"abc\n".to_vec());
    assert_eq!(it.next().unwrap().to_bytes(), Vec::<u8>::new());
    assert!(it.next().is_none());
    assert_eq!(Rope::from_str("").lines().count(), 1);
    assert_eq!(Rope::from_str("\u{2028}\u{85}").lines().count(), 3);
}

#[test]
fn slices_compare_by_text() {
    let r = rope_from_str_chunked("abcabcé", 2);
    assert!(r.slice(0, 3) == r.slice(3, 6));
    assert!(r.slice(0, 2) != r.slice(3, 6));
    assert!(r.slice(1, 3) != r.slice(4, 7));
    let other = Rope::from_str("abc");
    assert!(r.slice(3, 6) == other.slice(0, 3));
    assert_eq!(r.slice(6, 7).len_chars(), 1);
    assert_eq!(r.slice(6, 7).to_bytes(), "é".as_bytes().to_vec());
}

#[test]
fn remove_takes_out_a_char_range() {
    let mut r = rope_from_str_chunked("hello wörld", 3);
    r.remove(5, 11);
    assert_eq!(r.to_string(), "hello");
    let mut r = Rope::from_str("aéb字c");
    r.remove(1, 4);
    assert_eq!(r.to_string(), "ac");
    let mut r = Rope::from_str("abc");
    r.remove(1, 1);
    assert_eq!(r.to_string(), "abc");
}

#[test]
fn builder_default_matches_new() {
    let mut a = RopeBuilder::default();
    let mut b = RopeBuilder::new();
    a.append("Hello, ");
    a.append_chunk("world");
    b.append("Hello, ");
    b.append_chunk("world");
    let ra = a.finish_no_fix();
    let rb = b.finish_no_fix();
    assert_eq!(ra.chunks(), rb.chunks());
    assert_eq!(ra.chunks(), vec!["Hello, ", "world"]);
    assert_eq!(RopeBuilder::default().finish().to_string(), "");
}

#[test]
fn hasher_feeds_fnv_with_boundary_bytes() {
    let mut h = ChunkBoundarySensitiveHasher::default();
    assert_eq!(h.finish(), FNV_OFFSET_BASIS);
    assert_eq!(h.finish(), 0xcbf29ce484222325);
    h.write(b"a");
    assert_eq!(h.finish(), fnv_of(&[0x61, 0xFF]));
    h.write_u8(7);
    assert_eq!(h.finish(), fnv_of(&[0x61, 0xFF, 7, 0xFF]));
    // Writes split differently hash differently.
    let mut h1 = ChunkBoundarySensitiveHasher::default();
    h1.write(b"ab");
    let mut h2 = ChunkBoundarySensitiveHasher::default();
    h2.write(b"a");
    h2.write(b"b");
    assert_ne!(h1.finish(), h2.finish());
}

#[test]
fn rope_hash_is_in_fixed_blocks() {
    assert_eq!(hash_rope(&Rope::from_str("")), fnv_of(&[0xFF, 0xFF]));
    assert_eq!(hash_rope(&Rope::from_str("ab")), fnv_of(&[b'a', b'b', 0xFF, 0xFF, 0xFF]));
    let text: String = (0..300).map(|i| (b'a' + (i % 26) as u8) as char).collect();
    let mut stream = text.as_bytes()[..256].to_vec();
    stream.push(0xFF);
    stream.extend_from_slice(&text.as_bytes()[256..]);
    stream.extend_from_slice(&[0xFF, 0xFF, 0xFF]);
    let want = fnv_of(&stream);
    assert_eq!(hash_rope(&Rope::from_str(&text)), want);
    assert_eq!(hash_rope(&rope_from_str_chunked(&text, 7)), want);
    assert_eq!(hash_rope(&rope_from_str_chunked(&text, 300)), want);
}

#[test]
fn hash_ignores_chunk_layout() {
    let text = "Zwölf Boxkämpfer jagen Viktor quer über den großen Sylter Deich.\r\n".repeat(9);
    let h = hash_rope(&Rope::from_str(&text));
    for size in 1..40 {
        assert_eq!(hash_rope(&rope_from_str_chunked(&text, size)), h);
    }
    assert_ne!(hash_rope(&Rope::from_str("abc")), hash_rope(&Rope::from_str("abd")));
}

#[test]
fn properties_discard_where_they_do_not_apply() {
    let text = "Hello world".to_string();
    assert!(matches!(property_rope_hash_chunk_invariant(text.clone(), 0, 3), PropertyResult::Discard));
    assert!(matches!(property_rope_hash_chunk_invariant(text.clone(), 5, 5), PropertyResult::Discard));
    assert!(matches!(property_rope_hash_chunk_invariant(text.clone(), 5, 6), PropertyResult::Pass));
    assert!(matches!(property_rope_eq_chunk_invariant(text.clone(), 1, 2), PropertyResult::Discard));
    assert!(matches!(property_rope_eq_chunk_invariant("éé".to_string(), 1, 2), PropertyResult::Discard));
    assert!(matches!(property_rope_eq_chunk_invariant("éééééééé".to_string(), 1, 2), PropertyResult::Pass));
    assert!(matches!(property_slice_crlf_len_lines(String::new(), 3), PropertyResult::Discard));
    assert!(matches!(property_slice_crlf_len_lines("a\r\nb".to_string(), 2), PropertyResult::Pass));
}

#[test]
fn witness_replay_passes() {
    assert_eq!(canonical_empty_text(), "");
    assert_eq!(canonical_latin1_text(), "éé");
    assert!(check_lines_match_model().is_ok());
    assert!(check_rope_eq_chunk_invariant().is_ok());
    assert!(check_rope_hash_chunk_invariant().is_ok());
    assert!(check_utf16_char_roundtrip().is_ok());
    assert_eq!(to_err(PropertyResult::Fail("boom".to_string())), Err("boom".to_string()));
    assert_eq!(to_err(PropertyResult::Discard), Ok(()));
}

#[test]
fn json_strings_are_escaped() {
    assert_eq!(json_str(""), "\"\"");
    assert_eq!(json_str("abc"), "\"abc\"");
    assert_eq!(
        json_str("a\"b\\c\n\r\t\u{1}\u{1f}é😀"),
        "\"a\\\"b\\\\c\\n\\r\\t\\u0001\\u001fé😀\""
    );
}

#[test]
fn property_names_are_recognized() {
    assert_eq!(etna_check("LinesMatchModel"), Some(Ok(())));
    assert_eq!(etna_check("RopeEqChunkInvariant"), Some(Ok(())));
    assert_eq!(etna_check("RopeHashChunkInvariant"), Some(Ok(())));
    assert_eq!(etna_check("Utf16CharRoundtrip"), Some(Ok(())));
    assert_eq!(etna_check("All"), None);
    assert_eq!(etna_check("LinesMatchMode"), None);
    assert!(str_eq("é", "é"));
    assert!(!str_eq("é", "e"));
}

#[test]
fn json_reports_are_one_line() {
    assert_eq!(
        json_report("etna", "All", "passed", 4, 1234, None, None),
        "{\"status\":\"passed\",\"tests\":4,\"discards\":0,\"time\":\"1234us\",\"counterexample\":null,\"error\":null,\"tool\":\"etna\",\"property\":\"All\"}"
    );
    assert_eq!(
        json_report("proptest", "Utf16CharRoundtrip", "failed", 0, 0, Some("(\"é\")"), Some("x\ny")),
        "{\"status\":\"failed\",\"tests\":0,\"discards\":0,\"time\":\"0us\",\"counterexample\":\"(\\\"é\\\")\",\"error\":\"x\\ny\",\"tool\":\"proptest\",\"property\":\"Utf16CharRoundtrip\"}"
    );
    assert_eq!(
        json_report("a", "b", "c", u64::MAX, u128::MAX, None, None),
        format!(
            "{{\"status\":\"c\",\"tests\":{},\"discards\":0,\"time\":\"{}us\",\"counterexample\":null,\"error\":null,\"tool\":\"a\",\"property\":\"b\"}}",
            u64::MAX,
            u128::MAX
        )
    );
}

/// Decodes a JSON string literal (no surrogate escapes needed here).
fn decode_json_literal(q: &str) -> Option<String> {
    let inner = q.strip_prefix('"')?.strip_suffix('"')?;
    let mut out = String::new();
    let mut it = inner.chars();
    while let Some(c) = it.next() {
        match c {
            '\\' => match it.next()? {
                '"' => out.push('"'),
                '\\' => out.push('\\'),
                '/' => out.push('/'),
                'b' => out.push('\u{8}'),
                'f' => out.push('\u{c}'),
                'n' => out.push('\n'),
                'r' => out.push('\r'),
                't' => out.push('\t'),
                'u' => {
                    let hex: String = (0..4).map(|_| it.next()).collect::<Option<String>>()?;
                    out.push(char::from_u32(u32::from_str_radix(&hex, 16).ok()?)?);
                }
                _ => return None,
            },
            '"' => return None,
            c if (c as u32) < 0x20 => return None,
            c => out.push(c),
        }
    }
    Some(out)
}

#[test]
fn json_strings_decode_back() {
    for s in ["", "plain", "a\"b\\c/d", "\u{0}\u{8}\u{b}\u{c}\u{1f}\n\r\t", "é😀\u{7f}"] {
        let q = json_str(s);
        assert!(q.chars().all(|c| (c as u32) >= 0x20));
        assert_eq!(decode_json_literal(&q), Some(s.to_string()));
    }
}

fn passing_run(_p: &str) -> Outcome {
    (Ok(()), Metrics { inputs: 3, elapsed_us: 10 })
}

fn failing_third_run(p: &str) -> Outcome {
    if p == "RopeHashChunkInvariant" {
        (Err(format!("{p} failed")), Metrics { inputs: 1, elapsed_us: 1 })
    } else {
        (Ok(()), Metrics { inputs: 2, elapsed_us: 5 })
    }
}

#[test]
fn run_all_adds_up_every_run() {
    assert_eq!(
        property_names(),
        vec!["LinesMatchModel", "RopeEqChunkInvariant", "RopeHashChunkInvariant", "Utf16CharRoundtrip"]
    );
    let (r, m) = run_all(passing_run);
    assert_eq!(r, Ok(()));
    assert_eq!((m.inputs, m.elapsed_us), (12, 40));
    let (r, m) = run_all(failing_third_run);
    assert_eq!(r, Err("RopeHashChunkInvariant failed".to_string()));
    assert_eq!((m.inputs, m.elapsed_us), (5, 11));
}

#[test]
fn metrics_combine_adds_fields() {
    let m = Metrics { inputs: 7, elapsed_us: 100 }.combine(Metrics { inputs: 5, elapsed_us: 1 });
    assert_eq!((m.inputs, m.elapsed_us), (12, 101));
    let z = Metrics::default();
    assert_eq!((z.inputs, z.elapsed_us), (0, 0));
}

#[test]
fn ensure_non_ascii_adds_e_acute_only_when_needed() {
    assert_eq!(ensure_non_ascii(String::new()), "é");
    assert_eq!(ensure_non_ascii("ab\n".to_string()), "ab\né");
    assert_eq!(ensure_non_ascii("aあb".to_string()), "aあb");
}
