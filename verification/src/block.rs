//! The phrase-codec boundary: a single fixed-size block of entropy and its
//! word phrase. Everything the library assumes of the outside phrase codec
//! is stated here, on the contracts of the trusted functions.

use vstd::prelude::*;

use bip39::Language as CodecLanguage;

use crate::error::SeedPhraserError;
use crate::lang::Language;
use crate::words::is_wsp;
use crate::words::split_words;

verus! {

/// The entropy byte counts a single block can hold.
pub open spec fn valid_entropy_bytes(n: nat) -> bool {
    n == 16 || n == 20 || n == 24 || n == 28 || n == 32
}

/// The entropy bit counts a single block can hold.
pub open spec fn valid_block_bits(bits: nat) -> bool {
    bits == 128 || bits == 160 || bits == 192 || bits == 224 || bits == 256
}

/// The word phrase the codec gives a block of entropy in a language: the
/// wordlist words joined by single spaces. A function of the entropy and the
/// language alone.
pub uninterp spec fn words_of(entropy: Seq<u8>, lang: Language) -> Seq<char>;

/// What decoding a phrase text in a language yields: the entropy bytes when
/// the text is a valid phrase (known words, a supported word count, a
/// matching checksum), and nothing otherwise. A function of the text and the
/// language alone.
pub uninterp spec fn decode_words(text: Seq<char>, lang: Language) -> Option<Seq<u8>>;

/// A canonical block phrase of `k` words: it splits on spaces into exactly
/// `k` nonempty words, and no character of it is `'@'` or a whitespace
/// character other than the separating spaces.
pub open spec fn canonical_phrase(s: Seq<char>, k: nat) -> bool {
    &&& split_words(s).len() == k
    &&& forall|i: int|
        0 <= i < split_words(s).len() ==> (#[trigger] split_words(s)[i]).len() > 0
    &&& forall|j: int| 0 <= j < s.len() ==> s[j] != '@' && (is_wsp(s[j]) ==> s[j] == ' ')
}

/// One block: a standard-size entropy buffer and its word phrase.
#[derive(Clone, Debug)]
pub struct Block {
    pub entropy: Vec<u8>,
    pub words: String,
}

impl Block {
    /// A block is well-formed for a language when its entropy has a standard
    /// size and its words are the canonical phrase of that entropy: three
    /// words for each four entropy bytes, decoding back to the entropy.
    pub open spec fn wf(self, lang: Language) -> bool {
        &&& valid_entropy_bytes(self.entropy@.len())
        &&& self.words@ == words_of(self.entropy@, lang)
        &&& decode_words(self.words@, lang) == Some(self.entropy@)
        &&& canonical_phrase(self.words@, (3 * (self.entropy@.len() / 4)) as nat)
    }
}

/// Relies on bip39::MnemonicType::for_key_size and bip39::Mnemonic::new:
/// for one of the five standard bit counts they draw `bits / 8` bytes of
/// fresh random entropy. Nothing is assumed of the drawn bytes beyond their
/// number.
#[verifier::external_body]
pub(crate) fn fresh_block_entropy(bits: usize, lang: Language) -> (r: Vec<u8>)
    requires
        valid_block_bits(bits as nat),
    ensures
        8 * r@.len() == bits,
{
    let bl = match lang {
        Language::English => CodecLanguage::English,
        Language::ChineseSimplified => CodecLanguage::ChineseSimplified,
        Language::ChineseTraditional => CodecLanguage::ChineseTraditional,
        Language::French => CodecLanguage::French,
        Language::Italian => CodecLanguage::Italian,
        Language::Japanese => CodecLanguage::Japanese,
        Language::Spanish => CodecLanguage::Spanish,
        Language::Korean => CodecLanguage::Korean,
    };
    let mtype = bip39::MnemonicType::for_key_size(bits).unwrap();
    bip39::Mnemonic::new(mtype, bl).entropy().to_vec()
}

/// Relies on bip39::Mnemonic::from_entropy: it succeeds exactly on the five
/// standard entropy sizes; it keeps the entropy unchanged; its phrase is a
/// function of the entropy and language alone, namely nonempty wordlist
/// words (which contain no whitespace and no `'@'`) joined by single
/// spaces, three words for each four entropy bytes; and decoding that
/// phrase returns the same entropy (the phrase/entropy round trip of the
/// codec).
#[verifier::external_body]
pub(crate) fn block_from_entropy(bytes: &[u8], lang: Language) -> (r: Result<Block, SeedPhraserError>)
    ensures
        r is Ok <==> valid_entropy_bytes(bytes@.len()),
        r is Ok ==> ({
            let b = r.unwrap();
            &&& b.entropy@ == bytes@
            &&& b.words@ == words_of(bytes@, lang)
            &&& decode_words(b.words@, lang) == Some(bytes@)
            &&& canonical_phrase(b.words@, (3 * (bytes@.len() / 4)) as nat)
        }),
        r is Err ==> r->Err_0 == SeedPhraserError::FailedGeneratingMnemonic,
{
    let bl = match lang {
        Language::English => CodecLanguage::English,
        Language::ChineseSimplified => CodecLanguage::ChineseSimplified,
        Language::ChineseTraditional => CodecLanguage::ChineseTraditional,
        Language::French => CodecLanguage::French,
        Language::Italian => CodecLanguage::Italian,
        Language::Japanese => CodecLanguage::Japanese,
        Language::Spanish => CodecLanguage::Spanish,
        Language::Korean => CodecLanguage::Korean,
    };
    match bip39::Mnemonic::from_entropy(bytes, bl) {
        Ok(m) => Ok(Block { entropy: m.entropy().to_vec(), words: m.into_phrase() }),
        Err(_) => Err(SeedPhraserError::FailedGeneratingMnemonic),
    }
}

/// Relies on bip39::Mnemonic::from_phrase: whether a text is a valid phrase
/// and which entropy it encodes depend on the text and the language alone;
/// on success the entropy has one of the five standard sizes.
#[verifier::external_body]
pub(crate) fn decode_block_entropy(text: &str, lang: Language) -> (r: Result<Vec<u8>, SeedPhraserError>)
    ensures
        r is Ok <==> decode_words(text@, lang) is Some,
        r is Ok ==> Some(r.unwrap()@) == decode_words(text@, lang) && valid_entropy_bytes(
            r.unwrap()@.len(),
        ),
        r is Err ==> r->Err_0 == SeedPhraserError::FailedGeneratingMnemonic,
{
    let bl = match lang {
        Language::English => CodecLanguage::English,
        Language::ChineseSimplified => CodecLanguage::ChineseSimplified,
        Language::ChineseTraditional => CodecLanguage::ChineseTraditional,
        Language::French => CodecLanguage::French,
        Language::Italian => CodecLanguage::Italian,
        Language::Japanese => CodecLanguage::Japanese,
        Language::Spanish => CodecLanguage::Spanish,
        Language::Korean => CodecLanguage::Korean,
    };
    match bip39::Mnemonic::from_phrase(text, bl) {
        Ok(m) => Ok(m.entropy().to_vec()),
        Err(_) => Err(SeedPhraserError::FailedGeneratingMnemonic),
    }
}

} // verus!
