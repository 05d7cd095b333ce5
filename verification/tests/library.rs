use rag_rust_core::chunk::{chunk_text, chunk_text_impl, ChunkError};
use rag_rust_core::clean::clean_text;
use rag_rust_core::extract::extract_metadata;
use rag_rust_core::pipeline::process_document;
use rag_rust_core::segment::split_sentences_preserve_punct;
use rag_rust_core::text::char_len;

#[test]
fn test_clean_text() {
    let input = "Hello   world.\n\n\nThis is   a test.";
    let result = clean_text(input);
    assert!(result.contains("Hello world."));
    assert!(result.contains("This is a test."));
}

#[test]
fn test_clean_text_nfkc_normalization() {
    // The "ﬁ" ligature (U+FB01) should become "fi"
    let input = "ﬁnance";
    let result = clean_text(input);
    assert_eq!(result, "finance");
}

#[test]
fn test_chunk_text() {
    let text = "First sentence. Second sentence. Third sentence. Fourth sentence.";
    let chunks = chunk_text_impl(text, 40, 10).unwrap();
    assert!(!chunks.is_empty());
}

#[test]
fn test_chunk_text_zero_size_returns_none() {
    let text = "Some text.";
    let result = chunk_text_impl(text, 0, 10);
    assert!(result.is_none());
}

#[test]
fn test_chunk_text_preserves_punctuation() {
    let text = "What is this? It is great! Really.";
    let chunks = chunk_text_impl(text, 100, 10).unwrap();
    assert_eq!(chunks.len(), 1);
    // Should preserve the ? and ! instead of converting to .
    assert!(chunks[0].contains("?"));
    assert!(chunks[0].contains("!"));
}

#[test]
fn test_chunk_text_overlap_correctness() {
    let text = "One. Two. Three. Four. Five.";
    let chunks = chunk_text_impl(text, 15, 5).unwrap();
    // With such small chunks, we should get multiple chunks with overlap
    assert!(chunks.len() > 1);
}

#[test]
fn test_standardize_quotes() {
    let input = "\u{201C}Hello\u{201D} and \u{2018}world\u{2019}";
    let result = clean_text(input);
    assert_eq!(result, "\"Hello\" and 'world'");
}

#[test]
fn test_char_len_vs_byte_len() {
    // Emoji is multiple bytes but one character
    let emoji = "😀";
    assert_eq!(char_len(emoji), 1);
    assert_eq!(emoji.len(), 4); // UTF-8 bytes

    // Accented character
    let accented = "é";
    assert_eq!(char_len(accented), 1);
}

#[test]
fn test_split_sentences_preserve_punct() {
    let text = "Hello! How are you? I am fine.";
    let sentences = split_sentences_preserve_punct(text);
    assert_eq!(sentences.len(), 3);
    assert_eq!(sentences[0], "Hello!");
    assert_eq!(sentences[1], "How are you?");
    assert_eq!(sentences[2], "I am fine.");
}

#[test]
fn test_chunk_text_target_forty_overlap_ten() {
    let text = "First sentence. Second sentence. Third sentence. Fourth sentence.";
    let chunks = chunk_text_impl(text, 40, 10).unwrap();
    assert!(chunks.len() > 1);
    for c in &chunks {
        assert!(char_len(c) <= 40);
    }
    // consecutive chunks share trailing/leading sentence text
    assert_eq!(chunks[0], "First sentence. Second sentence.");
    assert_eq!(chunks[1], "Second sentence. Third sentence.");
    assert_eq!(chunks[2], "Third sentence. Fourth sentence.");
}

#[test]
fn test_chunk_text_single_chunk_equals_trimmed_input() {
    let text = "What is this? It is great! Really.";
    let chunks = chunk_text_impl(text, 100, 10).unwrap();
    assert_eq!(chunks.len(), 1);
    assert_eq!(chunks[0], text);
}

#[test]
fn test_chunk_text_exact_overlap_chain() {
    let text = "One. Two. Three. Four. Five.";
    let chunks = chunk_text_impl(text, 15, 5).unwrap();
    assert_eq!(
        chunks,
        vec!["One. Two.", "Two. Three.", "Three. Four.", "Four. Five."]
    );
    for c in &chunks {
        assert!(char_len(c) <= 15);
    }
    // each consecutive pair shares one sentence
    for w in chunks.windows(2) {
        let last_sentence = w[0].rsplit(". ").next().unwrap();
        assert!(w[1].contains(last_sentence.trim_end_matches('.')));
    }
}

#[test]
fn test_chunk_text_error_variant() {
    let result = chunk_text("Some text.", 0, 10);
    assert_eq!(result, Err(ChunkError::InvalidConfiguration));
    let ok = chunk_text("Some text.", 10, 0);
    assert!(ok.is_ok());
}

#[test]
fn test_chunk_text_empty_input() {
    let chunks = chunk_text("", 10, 5).unwrap();
    assert!(chunks.is_empty());
    let chunks = chunk_text("", 1, 0).unwrap();
    assert!(chunks.is_empty());
}

#[test]
fn test_chunk_text_no_boundary_single_chunk() {
    // a sentence is never split, even when it alone exceeds the target
    let chunks = chunk_text_impl("abcdefghij", 4, 2).unwrap();
    assert_eq!(chunks, vec!["abcdefghij"]);
}

#[test]
fn test_chunk_text_whitespace_fallback_windows() {
    // no sentence at all: long whitespace-only text splits into fixed windows
    let text = "          ";
    let chunks = chunk_text_impl(text, 4, 0).unwrap();
    assert_eq!(chunks, vec!["    ", "    ", "  "]);
}

#[test]
fn test_clean_text_idempotent() {
    let inputs = [
        "Hello   world.\n\n\nThis is   a test.",
        "\u{201C}Quoted\u{201D} \u{2013} and\tmore\u{0000}text",
        "  padded  \n\n  lines  \n mixed ",
        "",
    ];
    for input in inputs {
        let once = clean_text(input);
        let twice = clean_text(&once);
        assert_eq!(twice, once);
    }
}

#[test]
fn test_extract_metadata_example() {
    let m = extract_metadata("Revenue grew 12.5% to $4.2 million in Q1 2024 at ACME.");
    assert!(m.percentages.iter().any(|s| s == "12.5%"));
    assert!(m.monetary_amounts.iter().any(|s| s == "$4.2 million"));
    assert!(m.dates.iter().any(|s| s == "Q1 2024"));
    assert!(m.potential_tickers.iter().any(|s| s == "ACME"));
}

#[test]
fn test_extract_metadata_deterministic() {
    let text = "IBM and ACME rose 3% on $1,000 after January 5, 2024; CEO spoke. AAPL IBM.";
    let a = extract_metadata(text);
    let b = extract_metadata(text);
    assert_eq!(a.monetary_amounts, b.monetary_amounts);
    assert_eq!(a.percentages, b.percentages);
    assert_eq!(a.dates, b.dates);
    assert_eq!(a.potential_tickers, b.potential_tickers);
    // tickers deduplicated and sorted; the stoplist word is dropped
    assert_eq!(a.potential_tickers, vec!["AAPL", "ACME", "IBM"]);
}

#[test]
fn test_extract_metadata_patterns() {
    let m = extract_metadata("Paid $5M and $1,250.75 thousand; up 7%; due 2024-01-02.");
    assert_eq!(m.monetary_amounts, vec!["$5M", "$1,250.75 thousand"]);
    assert_eq!(m.percentages, vec!["7%"]);
    assert_eq!(m.dates, vec!["2024-01-02"]);
}

#[test]
fn test_extract_metadata_month_date() {
    let m = extract_metadata("Filed on January 15, 2024 and again on March 7 2025.");
    assert_eq!(m.dates, vec!["January 15, 2024", "March 7 2025"]);
}

#[test]
fn test_extract_metadata_ticker_rules() {
    // too short, too long, and inside-word runs are not tickers
    let m = extract_metadata("A AB ABCDE ABCDEF xAB THE went up.");
    assert_eq!(m.potential_tickers, vec!["AB", "ABCDE"]);
}

#[test]
fn test_process_document_records() {
    let recs = process_document("Revenue grew 12.5%. ACME did well.", 1500, 200).unwrap();
    assert_eq!(recs.len(), 1);
    assert_eq!(recs[0].chunk_index, 0);
    assert_eq!(recs[0].text, "Revenue grew 12.5%. ACME did well.");
    assert_eq!(recs[0].char_count, 34);
    assert_eq!(recs[0].metadata.percentages, vec!["12.5%"]);
    assert_eq!(recs[0].metadata.potential_tickers, vec!["ACME"]);
}

#[test]
fn test_process_document_zero_size_fails() {
    let r = process_document("Some text.", 0, 10);
    assert!(matches!(r, Err(ChunkError::InvalidConfiguration)));
}

#[test]
fn test_clean_text_strips_controls_keeps_breaks() {
    let input = "a\u{0007}b\tc\n\nnext\u{009F} para";
    let result = clean_text(input);
    assert_eq!(result, "ab c\n\nnext para");
}

#[test]
fn test_clean_text_standardizes_dashes() {
    let input = "a\u{2013}b \u{2014} c \u{2212}5 `q`";
    let result = clean_text(input);
    assert_eq!(result, "a-b - c -5 'q'");
}

#[test]
fn test_chunk_text_reseed_can_exceed_target() {
    // a chunk reseeded from the overlap window may exceed the target even
    // though every single sentence fits it
    let chunks = chunk_text_impl("aaaaa. bbbbb. ccccc.", 10, 9).unwrap();
    assert_eq!(chunks, vec!["aaaaa.", "aaaaa. bbbbb.", "bbbbb. ccccc."]);
}
