use seedphraser::AdvancedMnemonic;
use seedphraser::Language;
use seedphraser::SeedPhraserError;
use seedphraser::calculate_mnemonic_pad;
use seedphraser::is_valid_length;

#[test]
fn zero_bits_is_rejected() {
    assert_eq!(
        AdvancedMnemonic::generate(0, Language::English, true).unwrap_err(),
        SeedPhraserError::ZeroBitSecret
    );
    assert_eq!(
        AdvancedMnemonic::generate(0, Language::English, false).unwrap_err(),
        SeedPhraserError::ZeroBitSecret
    );
}

#[test]
fn unaligned_bits_are_rejected() {
    assert_eq!(
        AdvancedMnemonic::generate(5, Language::English, true).unwrap_err(),
        SeedPhraserError::BitsNotByteAligned
    );
    // The byte-alignment check runs before any padding arithmetic, so even
    // with padding enabled 250 bits never reach the pad calculation.
    assert_eq!(
        AdvancedMnemonic::generate(250, Language::English, true).unwrap_err(),
        SeedPhraserError::BitsNotByteAligned
    );
}

#[test]
fn nonstandard_size_without_padding_is_rejected() {
    assert_eq!(
        AdvancedMnemonic::generate(200, Language::English, false).unwrap_err(),
        SeedPhraserError::FailedGeneratingMnemonic
    );
    assert_eq!(
        AdvancedMnemonic::generate(264, Language::English, false).unwrap_err(),
        SeedPhraserError::FailedGeneratingMnemonic
    );
}

#[test]
fn seventeen_bytes_need_repadding() {
    let bytes = [7u8; 17];
    assert_eq!(
        AdvancedMnemonic::from_entropy(&bytes, Language::English, false).unwrap_err(),
        SeedPhraserError::BadSequenceLength
    );
    let m = AdvancedMnemonic::from_entropy(&bytes, Language::English, true).unwrap();
    let recovered = m.to_vec();
    assert_eq!(recovered.len(), 17);
    assert_eq!(recovered, bytes.to_vec());
}

#[test]
fn unpadded_full_block_has_no_marker() {
    let m = AdvancedMnemonic::generate(256, Language::English, false).unwrap();
    let text = m.clone().to_string();
    assert!(!text.contains('@'));
    assert_eq!(text.split(' ').count(), 24);
    let decoded = AdvancedMnemonic::from_phrase(&text, Language::English).unwrap();
    assert_eq!(decoded.to_vec().len(), 32);
    assert_eq!(m.to_vec().len(), 32);
}

#[test]
fn padded_bit_count_puts_byte_trim_in_marker() {
    // 248 bits pad up to 256: one zero byte of padding, so the text carries
    // " @1" and the byte buffer drops exactly that byte again.
    let m = AdvancedMnemonic::generate(248, Language::English, true).unwrap();
    let text = m.clone().to_string();
    assert!(text.ends_with(" @1"));
    let bytes = m.to_vec();
    assert_eq!(bytes.len(), 31);
    let reparsed = AdvancedMnemonic::from_phrase(&text, Language::English).unwrap();
    assert_eq!(reparsed.to_vec(), bytes);
}

#[test]
fn padding_a_multiple_of_256_adds_a_full_block() {
    // The boundary policy: an exact multiple of 256 above 256 gains a whole
    // extra zero block, and the marker says so.
    let m = AdvancedMnemonic::generate(512, Language::English, true).unwrap();
    let text = m.clone().to_string();
    assert!(text.ends_with(" @32"));
    assert_eq!(text.trim_end_matches(" @32").split(' ').count(), 72);
    assert_eq!(m.to_vec().len(), 64);
}

#[test]
fn pad_calculation_matches_the_boundaries() {
    assert_eq!(calculate_mnemonic_pad(1), 127);
    assert_eq!(calculate_mnemonic_pad(128), 0);
    assert_eq!(calculate_mnemonic_pad(136), 24);
    assert_eq!(calculate_mnemonic_pad(250), 6);
    assert_eq!(calculate_mnemonic_pad(256), 0);
    assert_eq!(calculate_mnemonic_pad(257), 255);
    assert_eq!(calculate_mnemonic_pad(300), 212);
    assert_eq!(calculate_mnemonic_pad(512), 256);
    assert_eq!(calculate_mnemonic_pad(1024), 256);
}

#[test]
fn valid_lengths_are_the_standard_ones_and_chains() {
    for bits in [128usize, 160, 192, 224, 256, 512, 768, 2048] {
        assert!(is_valid_length(bits));
    }
    for bits in [0usize, 8, 129, 255, 257, 300, 384, 388] {
        assert!(!is_valid_length(bits));
    }
}

#[test]
fn malformed_markers_are_integer_errors() {
    let base = AdvancedMnemonic::generate(128, Language::English, false)
        .unwrap()
        .to_string();
    let empty_digits = format!("{} @", base);
    assert_eq!(
        AdvancedMnemonic::from_phrase(&empty_digits, Language::English).unwrap_err(),
        SeedPhraserError::FailedToParseInteger
    );
    let junk_digits = format!("{} @5x", base);
    assert_eq!(
        AdvancedMnemonic::from_phrase(&junk_digits, Language::English).unwrap_err(),
        SeedPhraserError::FailedToParseInteger
    );
    let huge = format!("{} @99999999999999999999999999", base);
    assert_eq!(
        AdvancedMnemonic::from_phrase(&huge, Language::English).unwrap_err(),
        SeedPhraserError::FailedToParseInteger
    );
}

#[test]
fn marker_claiming_too_much_padding_is_rejected() {
    let base = AdvancedMnemonic::generate(128, Language::English, false)
        .unwrap()
        .to_string();
    let text = format!("{} @40", base);
    assert_eq!(
        AdvancedMnemonic::from_phrase(&text, Language::English).unwrap_err(),
        SeedPhraserError::BadSequenceLength
    );
}

#[test]
fn chained_word_count_must_be_a_multiple_of_24() {
    let a = AdvancedMnemonic::generate(256, Language::English, false)
        .unwrap()
        .to_string();
    let b = AdvancedMnemonic::generate(128, Language::English, false)
        .unwrap()
        .to_string();
    let text = format!("{} {}", a, b);
    assert_eq!(text.split(' ').count(), 36);
    assert_eq!(
        AdvancedMnemonic::from_phrase(&text, Language::English).unwrap_err(),
        SeedPhraserError::BadSequenceLength
    );
}

#[test]
fn unknown_words_fail_the_phrase_codec() {
    assert_eq!(
        AdvancedMnemonic::from_phrase("definitely not twelve valid words", Language::English)
            .unwrap_err(),
        SeedPhraserError::FailedGeneratingMnemonic
    );
}

#[test]
fn surrounding_whitespace_is_trimmed() {
    let m = AdvancedMnemonic::generate(160, Language::English, false).unwrap();
    let bytes = m.clone().to_vec();
    let text = format!("  \t{}\n ", m.to_string());
    let reparsed = AdvancedMnemonic::from_phrase(&text, Language::English).unwrap();
    assert_eq!(reparsed.to_vec(), bytes);
}

#[test]
fn empty_entropy_needs_repadding() {
    let empty: [u8; 0] = [];
    assert_eq!(
        AdvancedMnemonic::from_entropy(&empty, Language::English, false).unwrap_err(),
        SeedPhraserError::BadSequenceLength
    );
    // Zero bytes pad up to a full 128-bit zero block, and the byte
    // serialization drops all of it again.
    let m = AdvancedMnemonic::from_entropy(&empty, Language::English, true).unwrap();
    let text = m.clone().to_string();
    assert!(text.ends_with(" @16"));
    assert_eq!(m.to_vec(), Vec::<u8>::new());
}
