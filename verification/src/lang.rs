//! The closed enumerations at the program boundary: supported phrase
//! languages and input/output byte formats, with total lookup functions.

use vstd::prelude::*;

use crate::error::SeedPhraserError;

verus! {

/// A phrase language the codec supports.
#[derive(Clone, Copy, Debug, PartialEq, Eq, Structural)]
pub enum Language {
    English,
    ChineseSimplified,
    ChineseTraditional,
    French,
    Italian,
    Japanese,
    Spanish,
    Korean,
}

/// An input or output byte format at the program boundary.
#[derive(Clone, Copy, Debug, PartialEq, Eq, Structural)]
pub enum IoFormat {
    Text,
    Binary,
    Base64,
    Base64UrlSafe,
    Hex,
}

/// What `IoFormat::try_from` returns for a given format name.
pub open spec fn spec_format(s: Seq<char>) -> Result<IoFormat, SeedPhraserError> {
    if s == "txt"@ {
        Ok(IoFormat::Text)
    } else if s == "bin"@ {
        Ok(IoFormat::Binary)
    } else if s == "b64"@ {
        Ok(IoFormat::Base64)
    } else if s == "b64url"@ {
        Ok(IoFormat::Base64UrlSafe)
    } else if s == "hex"@ {
        Ok(IoFormat::Hex)
    } else {
        Err(SeedPhraserError::UnknownFormat)
    }
}

/// Character-by-character string comparison.
pub fn str_eq(a: &str, b: &str) -> (r: bool)
    ensures
        r == (a@ == b@),
{
    let an = a.unicode_len();
    let bn = b.unicode_len();
    if an != bn {
        return false;
    }
    let mut i: usize = 0;
    while i < an
        invariant
            0 <= i <= an,
            an == a@.len(),
            an == b@.len(),
            forall|j: int| 0 <= j < i ==> a@[j] == b@[j],
        decreases an - i,
    {
        if a.get_char(i) != b.get_char(i) {
            return false;
        }
        i += 1;
    }
    proof {
        assert(a@ =~= b@);
    }
    true
}

impl IoFormat {
    /// If the formatting to be used is just the seed phrase or not.
    pub fn is_text(&self) -> (r: bool)
        ensures
            r == (self is Text),
    {
        match self {
            IoFormat::Text => true,
            _ => false,
        }
    }

    /// Parses an [`IoFormat`] from its format name.
    pub fn try_from(value: &str) -> (r: Result<IoFormat, SeedPhraserError>)
        ensures
            r == spec_format(value@),
    {
        if str_eq(value, "txt") {
            Ok(IoFormat::Text)
        } else if str_eq(value, "bin") {
            Ok(IoFormat::Binary)
        } else if str_eq(value, "b64") {
            Ok(IoFormat::Base64)
        } else if str_eq(value, "b64url") {
            Ok(IoFormat::Base64UrlSafe)
        } else if str_eq(value, "hex") {
            Ok(IoFormat::Hex)
        } else {
            Err(SeedPhraserError::UnknownFormat)
        }
    }
}

/// The lowercase form of a character sequence, as `str::to_lowercase`
/// computes it. The result depends on the characters alone.
pub uninterp spec fn lower_of(s: Seq<char>) -> Seq<char>;

/// Relies on `str::to_lowercase`: returns the Unicode lowercase form of the
/// input, a function of the input characters alone.
#[verifier::external_body]
fn lowercase(s: &str) -> (r: String)
    ensures
        r@ == lower_of(s@),
{
    s.to_lowercase()
}

/// What `LanguageTool::lookup` returns once the code is lowercased.
pub open spec fn spec_lookup(s: Seq<char>) -> Result<Language, SeedPhraserError> {
    if s == "en"@ {
        Ok(Language::English)
    } else if s == "zh-cn"@ {
        Ok(Language::ChineseSimplified)
    } else if s == "zh-hant"@ {
        Ok(Language::ChineseTraditional)
    } else if s == "fr"@ {
        Ok(Language::French)
    } else if s == "it"@ {
        Ok(Language::Italian)
    } else if s == "ja"@ {
        Ok(Language::Japanese)
    } else if s == "es"@ {
        Ok(Language::Spanish)
    } else if s == "ko"@ {
        Ok(Language::Korean)
    } else {
        Err(SeedPhraserError::UnrecognizableLanguage)
    }
}

/// Contains helper methods that allow us to easily deal with [`Language`].
pub struct LanguageTool;

impl LanguageTool {
    /// Looks up a case-insensitive ISO 639-1-ish code and returns the
    /// [`Language`] it names, or `UnrecognizableLanguage` for any other code.
    pub fn lookup(code: &str) -> (r: Result<Language, SeedPhraserError>)
        ensures
            r == spec_lookup(lower_of(code@)),
    {
        let low = lowercase(code);
        let l = low.as_str();
        if str_eq(l, "en") {
            Ok(Language::English)
        } else if str_eq(l, "zh-cn") {
            Ok(Language::ChineseSimplified)
        } else if str_eq(l, "zh-hant") {
            Ok(Language::ChineseTraditional)
        } else if str_eq(l, "fr") {
            Ok(Language::French)
        } else if str_eq(l, "it") {
            Ok(Language::Italian)
        } else if str_eq(l, "ja") {
            Ok(Language::Japanese)
        } else if str_eq(l, "es") {
            Ok(Language::Spanish)
        } else if str_eq(l, "ko") {
            Ok(Language::Korean)
        } else {
            Err(SeedPhraserError::UnrecognizableLanguage)
        }
    }
}

} // verus!
