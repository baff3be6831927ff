//! Witness tests: each calls a property function with frozen inputs, and
//! must pass.

use ropey::etna::{
    property_lines_match_model, property_rope_builder_default_build,
    property_rope_eq_chunk_invariant, property_rope_hash_chunk_invariant,
    property_slice_crlf_len_lines, property_utf16_char_roundtrip, PropertyResult,
};

fn must_pass(r: PropertyResult, label: &str) {
    match r {
        PropertyResult::Pass | PropertyResult::Discard => {}
        PropertyResult::Fail(m) => panic!("{label}: {m}"),
    }
}

#[test]
fn witness_lines_match_model_case_empty() {
    must_pass(
        property_lines_match_model(String::new()),
        "lines_match_model empty",
    );
}

#[test]
fn witness_rope_eq_chunk_invariant_case_non_ascii_boundary() {
    // Multi-line Korean text: removing a range from it leaves lines that start
    // and end inside multi-byte chars of the chunks the text was cut into.
    let line = "안녕하세요 ㅇㅇㅇ 세계 — 문자열 비교 ㅇ\n";
    let text = line.repeat(60);
    must_pass(
        property_rope_eq_chunk_invariant(text, 1467, 360),
        "rope_eq_chunk_invariant non-ascii boundary",
    );
}

#[test]
fn witness_rope_hash_chunk_invariant_case_ascii_split() {
    let text = "Hello world, this is a rope that spans multiple chunks.".to_string();
    must_pass(
        property_rope_hash_chunk_invariant(text, 7, 11),
        "rope_hash_chunk_invariant ascii split",
    );
}

#[test]
fn witness_utf16_char_roundtrip_case_latin1() {
    let text = "éé".to_string();
    must_pass(
        property_utf16_char_roundtrip(text),
        "utf16_char_roundtrip latin1",
    );
}

#[test]
fn witness_rope_builder_default_build_case_hello() {
    must_pass(
        property_rope_builder_default_build("Hello, world!".to_string()),
        "rope_builder_default_build hello",
    );
}

#[test]
fn witness_slice_crlf_len_lines_case_mid_crlf() {
    let text = "\r\n".repeat(512);
    must_pass(
        property_slice_crlf_len_lines(text, 769),
        "slice_crlf_len_lines mid crlf",
    );
}
