use seedphraser::IoFormat;
use seedphraser::Language;
use seedphraser::LanguageTool;
use seedphraser::SeedPhraserError;
use seedphraser::decode_hex;
use seedphraser::decode_payload;
use seedphraser::encode_hex;
use seedphraser::encode_payload;

#[test]
fn format_names_parse_to_their_formats() {
    assert_eq!(IoFormat::try_from("txt").unwrap(), IoFormat::Text);
    assert_eq!(IoFormat::try_from("bin").unwrap(), IoFormat::Binary);
    assert_eq!(IoFormat::try_from("b64").unwrap(), IoFormat::Base64);
    assert_eq!(IoFormat::try_from("b64url").unwrap(), IoFormat::Base64UrlSafe);
    assert_eq!(IoFormat::try_from("hex").unwrap(), IoFormat::Hex);
    assert_eq!(
        IoFormat::try_from("yaml").unwrap_err(),
        SeedPhraserError::UnknownFormat
    );
    assert_eq!(
        IoFormat::try_from("TXT").unwrap_err(),
        SeedPhraserError::UnknownFormat
    );
}

#[test]
fn only_the_text_format_is_text() {
    assert!(IoFormat::Text.is_text());
    assert!(!IoFormat::Binary.is_text());
    assert!(!IoFormat::Base64.is_text());
    assert!(!IoFormat::Base64UrlSafe.is_text());
    assert!(!IoFormat::Hex.is_text());
}

#[test]
fn language_codes_are_case_insensitive() {
    assert_eq!(LanguageTool::lookup("en").unwrap(), Language::English);
    assert_eq!(LanguageTool::lookup("EN").unwrap(), Language::English);
    assert_eq!(
        LanguageTool::lookup("zh-cn").unwrap(),
        Language::ChineseSimplified
    );
    assert_eq!(
        LanguageTool::lookup("ZH-Hant").unwrap(),
        Language::ChineseTraditional
    );
    assert_eq!(LanguageTool::lookup("fr").unwrap(), Language::French);
    assert_eq!(LanguageTool::lookup("it").unwrap(), Language::Italian);
    assert_eq!(LanguageTool::lookup("ja").unwrap(), Language::Japanese);
    assert_eq!(LanguageTool::lookup("es").unwrap(), Language::Spanish);
    assert_eq!(LanguageTool::lookup("KO").unwrap(), Language::Korean);
    assert_eq!(
        LanguageTool::lookup("tlh").unwrap_err(),
        SeedPhraserError::UnrecognizableLanguage
    );
}

#[test]
fn hex_encodes_two_lowercase_digits_per_byte() {
    assert_eq!(encode_hex(&vec![]), "");
    assert_eq!(encode_hex(&vec![0x00, 0xff, 0x1a]), "00ff1a");
}

#[test]
fn hex_decodes_both_cases_and_rejects_junk() {
    assert_eq!(
        decode_hex(&b"00FF1a".to_vec()).unwrap(),
        vec![0x00, 0xff, 0x1a]
    );
    assert_eq!(
        decode_hex(&b"abc".to_vec()).unwrap_err(),
        SeedPhraserError::MalformedHex
    );
    assert_eq!(
        decode_hex(&b"zz".to_vec()).unwrap_err(),
        SeedPhraserError::MalformedHex
    );
}

#[test]
fn hex_round_trips_through_the_payload_codec() {
    let bytes = vec![0u8, 1, 2, 250, 251, 252];
    let text = encode_payload(&bytes, &IoFormat::Hex).unwrap();
    let back = decode_payload(&text.into_bytes(), &IoFormat::Hex).unwrap();
    assert_eq!(back, bytes);
}

#[test]
fn base64_uses_the_alphabet_the_format_names() {
    let bytes = vec![0xfbu8, 0xff];
    let standard = encode_payload(&bytes, &IoFormat::Base64).unwrap();
    let url_safe = encode_payload(&bytes, &IoFormat::Base64UrlSafe).unwrap();
    assert_eq!(standard, "+/8=");
    assert_eq!(url_safe, "-_8=");
    assert_eq!(
        decode_payload(&standard.into_bytes(), &IoFormat::Base64).unwrap(),
        bytes
    );
    assert_eq!(
        decode_payload(&url_safe.into_bytes(), &IoFormat::Base64UrlSafe).unwrap(),
        bytes
    );
    assert_eq!(
        decode_payload(&b"%%%".to_vec(), &IoFormat::Base64).unwrap_err(),
        SeedPhraserError::MalformedBase64
    );
}

#[test]
fn text_formats_have_no_byte_rendering() {
    let bytes = vec![1u8, 2, 3];
    assert!(encode_payload(&bytes, &IoFormat::Text).is_none());
    assert!(encode_payload(&bytes, &IoFormat::Binary).is_none());
    assert_eq!(
        decode_payload(&bytes, &IoFormat::Binary).unwrap(),
        bytes
    );
}
