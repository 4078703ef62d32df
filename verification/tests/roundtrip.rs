use seedphraser::AdvancedMnemonic;
use seedphraser::Language;

#[test]
pub fn normal_size_sequence_without_padding() {
    for bits in [128usize, 160, 192, 224, 256, 512, 1024, 2048] {
        let original = AdvancedMnemonic::generate(bits, Language::English, false).unwrap();
        let o_bytes = original.clone().to_vec();
        let o_string = original.clone().to_string();

        let from_phrase = AdvancedMnemonic::from_phrase(&o_string, Language::English).unwrap();
        assert_eq!(o_bytes, from_phrase.to_vec());

        let from_entropy =
            AdvancedMnemonic::from_entropy(&o_bytes, Language::English, false).unwrap();
        assert_eq!(o_bytes, from_entropy.to_vec());
    }
}

#[test]
pub fn normal_size_sequence_with_padding() {
    for bits in 1usize..128 {
        let original = AdvancedMnemonic::generate(bits * 8, Language::English, true).unwrap();
        let o_bytes = original.clone().to_vec();
        let o_string = original.clone().to_string();

        let from_phrase = AdvancedMnemonic::from_phrase(&o_string, Language::English).unwrap();
        assert_eq!(o_bytes, from_phrase.to_vec());

        let from_entropy =
            AdvancedMnemonic::from_entropy(&o_bytes, Language::English, true).unwrap();
        assert_eq!(o_bytes, from_entropy.to_vec());
    }
}

#[test]
fn every_language_round_trips() {
    for lang in [
        Language::English,
        Language::ChineseSimplified,
        Language::ChineseTraditional,
        Language::French,
        Language::Italian,
        Language::Japanese,
        Language::Spanish,
        Language::Korean,
    ] {
        let original = AdvancedMnemonic::generate(512, lang, false).unwrap();
        let o_bytes = original.clone().to_vec();
        let o_string = original.clone().to_string();
        let reparsed = AdvancedMnemonic::from_phrase(&o_string, lang).unwrap();
        assert_eq!(o_bytes, reparsed.to_vec());
    }
}

#[test]
fn serializations_of_one_value_are_consistent() {
    // Serializing the same value to text and to bytes independently, then
    // inverting each, lands on the same secret.
    for bits in [24usize, 128, 248, 496, 1000] {
        let m = AdvancedMnemonic::generate(bits, Language::English, true).unwrap();
        let bytes = m.clone().to_vec();
        let text = m.clone().to_string();
        let via_text = AdvancedMnemonic::from_phrase(&text, Language::English)
            .unwrap()
            .to_vec();
        let via_bytes = AdvancedMnemonic::from_entropy(&bytes, Language::English, true)
            .unwrap()
            .to_vec();
        assert_eq!(bytes, via_text);
        assert_eq!(bytes, via_bytes);
    }
}

#[test]
fn known_entropy_encodes_to_known_phrase() {
    let entropy: [u8; 16] = [
        0x33, 0xE4, 0x6B, 0xB1, 0x3A, 0x74, 0x6E, 0xA4, 0x1C, 0xDD, 0xE4, 0x5C, 0x90, 0x84, 0x6A,
        0x79,
    ];
    let m = AdvancedMnemonic::from_entropy(&entropy, Language::English, false).unwrap();
    assert_eq!(
        m.clone().to_string(),
        "crop cash unable insane eight faith inflict route frame loud box vibrant"
    );
    let back = AdvancedMnemonic::from_phrase(
        "crop cash unable insane eight faith inflict route frame loud box vibrant",
        Language::English,
    )
    .unwrap();
    assert_eq!(back.to_vec(), entropy.to_vec());
    assert_eq!(m.to_vec(), entropy.to_vec());
}
