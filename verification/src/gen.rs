//! The extended mnemonic codec: an ordered sequence of phrase blocks plus
//! padding metadata, constructed by exactly one of generate / from_entropy /
//! from_phrase and serialized to phrase text or to a byte buffer.

use vstd::prelude::*;
use vstd::slice::slice_subrange;
use vstd::slice::slice_to_vec;
use vstd::string::StrSliceExecFns;
use vstd::string::StringExecFns;

use crate::block::Block;
use crate::block::block_from_entropy;
use crate::block::decode_block_entropy;
use crate::block::fresh_block_entropy;
use crate::block::decode_words;
use crate::block::valid_entropy_bytes;
use crate::block::canonical_phrase;
use crate::error::SeedPhraserError;
use crate::lang::Language;
use crate::pad::calculate_mnemonic_pad;
use crate::pad::is_valid_length;
use crate::pad::lemma_pad_reaches_valid;
use crate::pad::spec_is_valid_length;
use crate::pad::spec_pad;
use crate::words::all_digits;
use crate::words::dec_digits;
use crate::words::dec_value;
use crate::words::find_marker;
use crate::words::format_decimal;
use crate::words::join_range;
use crate::words::joined;
use crate::words::last_marker;
use crate::words::lemma_joined_concat;
use crate::words::parse_decimal_from;
use crate::words::split_on_space;
use crate::words::split_words;
use crate::words::trim_spec;
use crate::words::trim_str;
use crate::words::is_digit;
use crate::words::is_wsp;
use crate::words::views_of;

verus! {

/// Concatenation of a sequence of byte sequences, in order.
pub open spec fn cat(bs: Seq<Seq<u8>>) -> Seq<u8>
    decreases bs.len(),
{
    if bs.len() == 0 {
        Seq::empty()
    } else {
        bs[0] + cat(bs.skip(1))
    }
}

pub proof fn lemma_cat_push(bs: Seq<Seq<u8>>, x: Seq<u8>)
    ensures
        cat(bs.push(x)) == cat(bs) + x,
    decreases bs.len(),
{
    if bs.len() == 0 {
        assert(bs.push(x)[0] == x);
        assert(bs.push(x).skip(1) =~= Seq::<Seq<u8>>::empty());
        assert(cat(bs.push(x)) == bs.push(x)[0] + cat(bs.push(x).skip(1)));
        assert(cat(Seq::<Seq<u8>>::empty()) == Seq::<u8>::empty());
        assert(cat(bs) == Seq::<u8>::empty());
        assert(cat(bs.push(x)) =~= cat(bs) + x);
    } else {
        assert(bs.push(x)[0] == bs[0]);
        assert(bs.push(x).skip(1) =~= bs.skip(1).push(x));
        lemma_cat_push(bs.skip(1), x);
        assert(bs[0] + (cat(bs.skip(1)) + x) =~= (bs[0] + cat(bs.skip(1))) + x);
    }
}

/// Concatenation of a single byte sequence is itself.
pub proof fn lemma_cat_single(bs: Seq<Seq<u8>>, x: Seq<u8>)
    requires
        bs =~= seq![x],
    ensures
        cat(bs) == x,
{
    assert(bs[0] == x);
    assert(bs.skip(1) =~= Seq::<Seq<u8>>::empty());
    assert(cat(bs) == x + cat(bs.skip(1)));
    assert(cat(Seq::<Seq<u8>>::empty()) == Seq::<u8>::empty());
    assert(x + Seq::<u8>::empty() =~= x);
}

/// The entropy views of a sequence of blocks.
pub open spec fn entropy_views(gs: Seq<Block>) -> Seq<Seq<u8>> {
    gs.map_values(|b: Block| b.entropy@)
}

/// The word views of a sequence of blocks.
pub open spec fn word_views(gs: Seq<Block>) -> Seq<Seq<char>> {
    gs.map_values(|b: Block| b.words@)
}

/// The word content of a trimmed phrase text: everything before the last
/// ` @` marker pair, or the whole text when the pair occurs nowhere.
pub open spec fn marker_body(t: Seq<char>) -> Seq<char> {
    if last_marker(t) >= 0 {
        t.take(last_marker(t))
    } else {
        t
    }
}

/// The characters after the last ` @` marker pair.
pub open spec fn marker_digits(t: Seq<char>) -> Seq<char> {
    if last_marker(t) >= 0 {
        t.skip(last_marker(t) + 2)
    } else {
        Seq::empty()
    }
}

/// When a marker pair is present, what follows it must be a nonempty run of
/// decimal digits whose value, in bits, fits the machine word.
pub open spec fn marker_valid(t: Seq<char>) -> bool {
    last_marker(t) >= 0 ==> {
        &&& marker_digits(t).len() > 0
        &&& all_digits(marker_digits(t))
        &&& 8 * dec_value(marker_digits(t)) <= usize::MAX
    }
}

/// The padding byte count carried by the marker, zero when there is none.
pub open spec fn spec_trim_bytes(t: Seq<char>) -> nat {
    if last_marker(t) >= 0 {
        dec_value(marker_digits(t))
    } else {
        0
    }
}

/// The `g`-th run of 24 words, rejoined with single spaces.
pub open spec fn group_of(ws: Seq<Seq<char>>, g: int) -> Seq<char> {
    joined(ws.subrange(24 * g, 24 * g + 24))
}

/// Every group of 24 words decodes to a full 32-byte block.
pub open spec fn groups_ok(ws: Seq<Seq<char>>, lang: Language) -> bool {
    forall|g: int|
        0 <= g < ws.len() / 24 ==> {
            &&& (#[trigger] decode_words(group_of(ws, g), lang)) is Some
            &&& decode_words(group_of(ws, g), lang).unwrap().len() == 32
        }
}

/// The entropy blocks a trimmed phrase text parses to, assuming it parses.
pub open spec fn spec_parse_blocks(t: Seq<char>, lang: Language) -> Seq<Seq<u8>> {
    let ws = split_words(marker_body(t));
    if ws.len() > 24 {
        Seq::new((ws.len() / 24) as nat, |g: int| decode_words(group_of(ws, g), lang).unwrap())
    } else {
        seq![decode_words(marker_body(t), lang).unwrap()]
    }
}

/// The byte count of the blocks a trimmed phrase text parses to.
pub open spec fn spec_parse_total(t: Seq<char>, lang: Language) -> nat {
    cat(spec_parse_blocks(t, lang)).len()
}

/// Whether `from_phrase` accepts the trimmed text `t` in language `lang`.
pub open spec fn spec_parse_ok(t: Seq<char>, lang: Language) -> bool {
    let ws = split_words(marker_body(t));
    &&& marker_valid(t)
    &&& (ws.len() > 24 ==> ws.len() as int % 24 == 0 && groups_ok(ws, lang))
    &&& (ws.len() <= 24 ==> decode_words(marker_body(t), lang) is Some)
    &&& spec_trim_bytes(t) <= spec_parse_total(t, lang)
}

/// The full ordered sequence of blocks plus padding metadata representing
/// one arbitrary-length secret.
#[derive(Clone, Debug)]
pub struct AdvancedMnemonic {
    /// The ordered block handles, each holding its own entropy and phrase.
    pub generators: Vec<Block>,
    /// The number of low-order zero bits appended as padding, a multiple of
    /// eight.
    pub trim: usize,
    /// True only if padding arithmetic ran (distinct from `trim == 0`).
    pub padding: bool,
    /// The language every block was encoded in.
    pub lang: Language,
}

impl AdvancedMnemonic {
    /// The entropy of each block, in order.
    pub open spec fn block_views(self) -> Seq<Seq<u8>> {
        entropy_views(self.generators@)
    }

    /// The number of padding bits recorded on the value.
    pub open spec fn trim_bits(self) -> nat {
        self.trim as nat
    }

    /// Whether padding arithmetic ran when the value was constructed.
    pub open spec fn padding_enabled(self) -> bool {
        self.padding
    }

    /// The language of the blocks.
    pub open spec fn language(self) -> Language {
        self.lang
    }

    /// The byte serialization: all block entropy concatenated in order, with
    /// the `trim / 8` padding bytes removed from the end when padding ran
    /// (and nothing removed when the recorded trim exceeds the buffer, the
    /// guarded corner no construction path reaches).
    pub open spec fn byte_view(self) -> Seq<u8> {
        let all = cat(self.block_views());
        if self.padding && self.trim as int / 8 <= all.len() {
            all.take(all.len() - self.trim as int / 8)
        } else {
            all
        }
    }

    /// The block phrases joined by single spaces.
    pub open spec fn words_text(self) -> Seq<char> {
        joined(word_views(self.generators@))
    }

    /// The text serialization: the joined phrases, then the ` @<bytes>`
    /// padding marker exactly when padding ran and trimmed a nonzero number
    /// of bits.
    pub open spec fn text_view(self) -> Seq<char> {
        if self.padding && self.trim != 0 {
            self.words_text() + seq![' ', '@'] + dec_digits((self.trim as int / 8) as nat)
        } else {
            self.words_text()
        }
    }

    /// Well-formedness: at least one block, each block well-formed for the
    /// value's language; in a chain of several blocks every block carries
    /// exactly 32 entropy bytes; the trim is byte-aligned, zero unless
    /// padding ran, and never larger than the byte buffer.
    pub open spec fn wf(self) -> bool {
        &&& self.generators@.len() >= 1
        &&& forall|i: int|
            0 <= i < self.generators@.len() ==> (#[trigger] self.generators@[i]).wf(self.lang)
        &&& self.generators@.len() > 1 ==> forall|i: int|
            0 <= i < self.generators@.len() ==> (#[trigger] self.generators@[i]).entropy@.len()
                == 32
        &&& self.trim as int % 8 == 0
        &&& !self.padding ==> self.trim == 0
        &&& self.trim as int / 8 <= cat(self.block_views()).len()
    }

    /// Generates a new mnemonic over freshly drawn entropy, optionally
    /// padding the requested bit count up to the next block boundary.
    ///
    /// Fails with `ZeroBitSecret` on zero bits and with `BitsNotByteAligned`
    /// on a count that is not a multiple of eight. Without padding, a count
    /// that is neither a standard block size nor a multiple of 256 fails
    /// with the block-size selection error; with padding the adjusted count
    /// always fits.
    pub fn generate(bits: usize, lang: Language, padding: bool) -> (r: Result<
        AdvancedMnemonic,
        SeedPhraserError,
    >)
        requires
            bits <= usize::MAX - 256,
        ensures
            ({
                let trim: int = if padding {
                    spec_pad(bits as nat) as int
                } else {
                    0
                };
                &&& (r is Ok <==> (bits > 0 && bits as int % 8 == 0 && spec_is_valid_length(
                    (bits + trim) as nat,
                )))
                &&& (bits == 0 ==> r->Err_0 == SeedPhraserError::ZeroBitSecret)
                &&& (bits > 0 && bits as int % 8 != 0 ==> r->Err_0
                    == SeedPhraserError::BitsNotByteAligned)
                &&& (bits > 0 && bits as int % 8 == 0 && !spec_is_valid_length((bits + trim) as nat)
                    ==> r->Err_0 == SeedPhraserError::FailedGeneratingMnemonic)
                &&& (r is Ok ==> ({
                    let m = r.unwrap();
                    &&& m.wf()
                    &&& m.lang == lang
                    &&& m.padding == padding
                    &&& m.trim == trim
                    &&& 8 * cat(m.block_views()).len() == bits + trim
                    &&& m.byte_view().len() == bits as int / 8
                }))
            }),
    {
        if bits == 0 {
            return Err(SeedPhraserError::ZeroBitSecret);
        }
        if bits % 8 != 0 {
            return Err(SeedPhraserError::BitsNotByteAligned);
        }
        let trim: usize = if padding {
            calculate_mnemonic_pad(bits)
        } else {
            0
        };
        proof {
            lemma_pad_reaches_valid(bits as nat);
        }
        let total_bits: usize = bits + trim;
        if total_bits <= 256 {
            if !(total_bits == 128 || total_bits == 160 || total_bits == 192 || total_bits == 224
                || total_bits == 256) {
                return Err(SeedPhraserError::FailedGeneratingMnemonic);
            }
            let e = fresh_block_entropy(total_bits, lang);
            let b = block_from_entropy(e.as_slice(), lang).unwrap();
            let mut generators: Vec<Block> = Vec::new();
            generators.push(b);
            let m = AdvancedMnemonic { generators, trim, padding, lang };
            proof {
                lemma_cat_single(m.block_views(), b.entropy@);
            }
            Ok(m)
        } else {
            if total_bits % 256 != 0 {
                return Err(SeedPhraserError::FailedGeneratingMnemonic);
            }
            let mut generators: Vec<Block> = Vec::new();
            let mut remaining: usize = total_bits;
            proof {
                assert(cat(entropy_views(generators@)) == Seq::<u8>::empty());
            }
            while remaining > 0
                invariant
                    remaining as int % 256 == 0,
                    remaining <= total_bits,
                    forall|i: int|
                        0 <= i < generators@.len() ==> (#[trigger] generators@[i]).wf(lang),
                    forall|i: int|
                        0 <= i < generators@.len() ==> (#[trigger] generators@[i]).entropy@.len()
                            == 32,
                    8 * cat(entropy_views(generators@)).len() == total_bits - remaining,
                    cat(entropy_views(generators@)).len() == 32 * generators@.len(),
                decreases remaining,
            {
                let e = fresh_block_entropy(256, lang);
                let b = block_from_entropy(e.as_slice(), lang).unwrap();
                let ghost old_gens = generators@;
                generators.push(b);
                proof {
                    assert(entropy_views(generators@) =~= entropy_views(old_gens).push(b.entropy@));
                    lemma_cat_push(entropy_views(old_gens), b.entropy@);
                }
                remaining -= 256;
            }
            let m = AdvancedMnemonic { generators, trim, padding, lang };
            proof {
                assert(8 * cat(m.block_views()).len() == total_bits);
                assert(total_bits >= 512);
                assert(m.generators@.len() >= 2);
                assert(m.trim as int / 8 <= cat(m.block_views()).len());
                assert(m.byte_view().len() == bits as int / 8) by {
                    assert(cat(m.block_views()).len() == (bits + trim) as int / 8);
                    if m.padding {
                        assert((bits + trim) as int / 8 - trim as int / 8 == bits as int / 8) by {
                            assert(bits as int % 8 == 0 && trim as int % 8 == 0);
                            assert(8 * ((bits + trim) as int / 8) == bits + trim);
                            assert(8 * (trim as int / 8) == trim as int);
                            assert(8 * (bits as int / 8) == bits as int);
                        };
                    }
                };
            }
            Ok(m)
        }
    }

    /// Reads a sequence out from the raw bytes: pads the buffer with zero
    /// bytes up to the next block boundary, then splits it into one block of
    /// a standard size or a chain of 32-byte blocks.
    ///
    /// Fails with `BadSequenceLength` exactly when the bit length is not
    /// acceptable as it stands and re-padding is not allowed. The pad is
    /// computed even when the length is already valid, so a multiple of 256
    /// above 256 gains a full extra zero block, the boundary policy of
    /// `spec_pad`.
    pub fn from_entropy(bytes: &[u8], lang: Language, can_re_pad: bool) -> (r: Result<
        AdvancedMnemonic,
        SeedPhraserError,
    >)
        ensures
            (r is Ok <==> (8 * bytes@.len() <= usize::MAX && (spec_is_valid_length(
                (8 * bytes@.len()) as nat,
            ) || can_re_pad))),
            r is Err ==> r->Err_0 == SeedPhraserError::BadSequenceLength,
            r is Ok ==> ({
                let m = r.unwrap();
                &&& m.wf()
                &&& m.lang == lang
                &&& m.byte_view() == bytes@
                &&& m.trim == spec_pad((8 * bytes@.len()) as nat)
                &&& m.padding == (spec_pad((8 * bytes@.len()) as nat) != 0)
            }),
    {
        if bytes.len() > usize::MAX / 8 {
            return Err(SeedPhraserError::BadSequenceLength);
        }
        let current_bits: usize = bytes.len() * 8;
        if !is_valid_length(current_bits) && !can_re_pad {
            return Err(SeedPhraserError::BadSequenceLength);
        }
        let repad: usize = calculate_mnemonic_pad(current_bits);
        proof {
            lemma_pad_reaches_valid(current_bits as nat);
        }
        let mut buffer: Vec<u8> = slice_to_vec(bytes);
        let pad_bytes: usize = repad / 8;
        let mut k: usize = 0;
        while k < pad_bytes
            invariant
                0 <= k <= pad_bytes,
                buffer@.len() == bytes@.len() + k,
                buffer@.take(bytes@.len() as int) == bytes@,
            decreases pad_bytes - k,
        {
            let ghost old_buf = buffer@;
            buffer.push(0);
            proof {
                assert(buffer@.take(bytes@.len() as int) =~= old_buf.take(bytes@.len() as int));
            }
            k += 1;
        }
        let blen = buffer.len();
        proof {
            assert(8 * blen == current_bits + repad) by {
                assert(repad as int % 8 == 0);
                assert(8 * (repad as int / 8) == repad as int);
            };
            assert(spec_is_valid_length((8 * blen) as nat));
        }
        let mut generators: Vec<Block> = Vec::new();
        if blen <= 32 {
            proof {
                assert(valid_entropy_bytes(buffer@.len() as nat));
            }
            let b = block_from_entropy(buffer.as_slice(), lang).unwrap();
            generators.push(b);
            let m = AdvancedMnemonic { generators, trim: repad, padding: repad != 0, lang };
            proof {
                lemma_cat_single(m.block_views(), b.entropy@);
                assert(m.byte_view() =~= bytes@) by {
                    assert(cat(m.block_views()) == buffer@);
                    if repad != 0 {
                        assert(m.trim as int / 8 == pad_bytes);
                        assert(buffer@.take(buffer@.len() - pad_bytes) == bytes@);
                    }
                };
            }
            Ok(m)
        } else {
            proof {
                assert((8 * blen) as int % 256 == 0);
                assert(blen as int % 32 == 0) by (nonlinear_arith)
                    requires
                        (8 * blen) as int % 256 == 0,
                ;
            }
            let mut cursor: usize = 0;
            while cursor < blen
                invariant
                    0 <= cursor <= blen,
                    cursor as int % 32 == 0,
                    blen as int % 32 == 0,
                    blen == buffer@.len(),
                    forall|i: int|
                        0 <= i < generators@.len() ==> (#[trigger] generators@[i]).wf(lang),
                    forall|i: int|
                        0 <= i < generators@.len() ==> (#[trigger] generators@[i]).entropy@.len()
                            == 32,
                    cat(entropy_views(generators@)) == buffer@.take(cursor as int),
                    32 * generators@.len() == cursor,
                decreases blen - cursor,
            {
                proof {
                    assert((blen - cursor) as int % 32 == 0) by (nonlinear_arith)
                        requires
                            blen as int % 32 == 0,
                            cursor as int % 32 == 0,
                            cursor <= blen,
                    ;
                    assert(blen - cursor >= 32);
                }
                let chunk: &[u8] = slice_subrange(buffer.as_slice(), cursor, cursor + 32);
                let b = block_from_entropy(chunk, lang).unwrap();
                let ghost old_gens = generators@;
                generators.push(b);
                proof {
                    assert(entropy_views(generators@) =~= entropy_views(old_gens).push(b.entropy@));
                    lemma_cat_push(entropy_views(old_gens), b.entropy@);
                    assert(buffer@.take(cursor as int) + buffer@.subrange(
                        cursor as int,
                        cursor as int + 32,
                    ) =~= buffer@.take(cursor as int + 32));
                }
                cursor += 32;
            }
            let m = AdvancedMnemonic { generators, trim: repad, padding: repad != 0, lang };
            proof {
                assert(buffer@.take(blen as int) =~= buffer@);
                assert(cat(m.block_views()) == buffer@);
                assert(m.generators@.len() >= 2);
                assert(m.trim as int / 8 <= cat(m.block_views()).len());
                assert(m.byte_view() =~= bytes@) by {
                    if repad != 0 {
                        assert(m.trim as int / 8 == pad_bytes);
                        assert(buffer@.take(buffer@.len() - pad_bytes) == bytes@);
                    }
                };
            }
            Ok(m)
        }
    }

    /// Parses a phrase text: trims whitespace, strips a trailing ` @<bytes>`
    /// padding marker if one is present, splits the words on single spaces,
    /// and decodes them as one block (up to 24 words) or as consecutive
    /// groups of exactly 24 words.
    ///
    /// Fails with `FailedToParseInteger` on a malformed or oversized marker,
    /// with `BadSequenceLength` when more than 24 words are not an exact
    /// multiple of 24 or when the marker claims more padding bytes than the
    /// blocks hold, and with the phrase codec's error when a block does not
    /// decode or a chained group does not carry a full 32-byte block.
    #[verifier::loop_isolation(false)]
    pub fn from_phrase(text: &str, lang: Language) -> (r: Result<
        AdvancedMnemonic,
        SeedPhraserError,
    >)
        ensures
            ({
                let t = trim_spec(text@);
                let ws = split_words(marker_body(t));
                let decode_ok = (ws.len() > 24 ==> groups_ok(ws, lang)) && (ws.len() <= 24
                    ==> decode_words(marker_body(t), lang) is Some);
                &&& (r is Ok <==> spec_parse_ok(t, lang))
                &&& (!marker_valid(t) ==> r->Err_0 == SeedPhraserError::FailedToParseInteger)
                &&& (marker_valid(t) && ws.len() > 24 && ws.len() as int % 24 != 0 ==> r->Err_0
                    == SeedPhraserError::BadSequenceLength)
                &&& (marker_valid(t) && (ws.len() > 24 ==> ws.len() as int % 24 == 0)
                    && !decode_ok ==> r->Err_0 == SeedPhraserError::FailedGeneratingMnemonic)
                &&& (marker_valid(t) && (ws.len() > 24 ==> ws.len() as int % 24 == 0) && decode_ok
                    && spec_trim_bytes(t) > spec_parse_total(t, lang) ==> r->Err_0
                    == SeedPhraserError::BadSequenceLength)
                &&& (r is Ok ==> ({
                    let m = r.unwrap();
                    &&& m.wf()
                    &&& m.lang == lang
                    &&& m.block_views() == spec_parse_blocks(t, lang)
                    &&& m.trim == 8 * spec_trim_bytes(t)
                    &&& m.padding == (spec_trim_bytes(t) != 0)
                }))
            }),
    {
        let t: &str = trim_str(text);
        let ghost tv = t@;
        // The character count bounds the marker index, so `i + 2` below
        // cannot overflow.
        let _count: usize = t.unicode_len();
        let mut tb: usize = 0;
        let body: &str = match find_marker(t) {
            Some(i) => {
                proof {
                    crate::words::lemma_last_marker(tv);
                }
                let v: usize = match parse_decimal_from(t, i + 2) {
                    Some(v) => v,
                    None => {
                        proof {
                            assert(marker_digits(tv) =~= tv.skip(i + 2));
                        }
                        return Err(SeedPhraserError::FailedToParseInteger);
                    },
                };
                proof {
                    assert(marker_digits(tv) =~= tv.skip(i + 2));
                }
                if v > usize::MAX / 8 {
                    proof {
                        assert(8 * (usize::MAX as int / 8) <= usize::MAX);
                        assert(8 * dec_value(marker_digits(tv)) > usize::MAX);
                    }
                    return Err(SeedPhraserError::FailedToParseInteger);
                }
                tb = v;
                let b = t.substring_char(0, i);
                proof {
                    assert(b@ == marker_body(tv));
                }
                b
            },
            None => t,
        };
        proof {
            assert(body@ == marker_body(tv));
            assert(marker_valid(tv));
            assert(tb as nat == spec_trim_bytes(tv));
            assert(8 * tb <= usize::MAX);
        }
        let words: Vec<String> = split_on_space(body);
        let ghost ws = split_words(marker_body(tv));
        let n: usize = words.len();
        let mut generators: Vec<Block> = Vec::new();
        if n > 24 {
            if n % 24 != 0 {
                return Err(SeedPhraserError::BadSequenceLength);
            }
            let ngroups: usize = n / 24;
            proof {
                assert(24 * ngroups == n) by (nonlinear_arith)
                    requires
                        ngroups == n as int / 24,
                        n as int % 24 == 0,
                ;
            }
            let mut g: usize = 0;
            while g < ngroups
                invariant
                    0 <= g <= ngroups,
                    24 * ngroups == n,
                    n == words@.len(),
                    n > 24,
                    views_of(words@) == ws,
                    ws.len() == n,
                    generators@.len() == g,
                    forall|i: int| 0 <= i < g ==> (#[trigger] generators@[i]).wf(lang),
                    forall|i: int|
                        0 <= i < g ==> (#[trigger] generators@[i]).entropy@.len() == 32,
                    forall|i: int|
                        0 <= i < g ==> decode_words(group_of(ws, i), lang) == Some(
                            (#[trigger] generators@[i]).entropy@,
                        ),
                    cat(entropy_views(generators@)).len() == 32 * g,
                decreases ngroups - g,
            {
                proof {
                    assert(24 * (g + 1) <= 24 * ngroups) by (nonlinear_arith)
                        requires
                            g + 1 <= ngroups,
                    ;
                }
                let start: usize = 24 * g;
                let group: String = join_range(&words, start, start + 24);
                proof {
                    assert(group@ == group_of(ws, g as int));
                }
                proof {
                    assert(ws.len() as int / 24 == ngroups) by (nonlinear_arith)
                        requires
                            24 * ngroups == ws.len(),
                    ;
                }
                let e: Vec<u8> = match decode_block_entropy(group.as_str(), lang) {
                    Ok(e) => e,
                    Err(er) => {
                        proof {
                            assert(!groups_ok(ws, lang)) by {
                                assert(decode_words(group_of(ws, g as int), lang) is None);
                                assert(0 <= g < ws.len() / 24);
                            };
                        }
                        return Err(er);
                    },
                };
                if e.len() != 32 {
                    proof {
                        assert(!groups_ok(ws, lang)) by {
                            assert(decode_words(group_of(ws, g as int), lang).unwrap().len()
                                != 32);
                            assert(0 <= g < ws.len() / 24);
                        };
                    }
                    return Err(SeedPhraserError::FailedGeneratingMnemonic);
                }
                let b = block_from_entropy(e.as_slice(), lang).unwrap();
                let ghost old_gens = generators@;
                generators.push(b);
                proof {
                    assert(entropy_views(generators@) =~= entropy_views(old_gens).push(b.entropy@));
                    lemma_cat_push(entropy_views(old_gens), b.entropy@);
                }
                g += 1;
            }
            proof {
                assert(ws.len() as int / 24 == ngroups) by (nonlinear_arith)
                    requires
                        24 * ngroups == ws.len(),
                ;
                assert(groups_ok(ws, lang)) by {
                    assert forall|i: int| 0 <= i < ws.len() / 24 implies (#[trigger] decode_words(
                        group_of(ws, i),
                        lang,
                    )) is Some && decode_words(group_of(ws, i), lang).unwrap().len() == 32 by {
                        assert(decode_words(group_of(ws, i), lang) == Some(
                            generators@[i].entropy@,
                        ));
                    }
                };
                assert(entropy_views(generators@) =~= spec_parse_blocks(tv, lang));
            }
        } else {
            let e: Vec<u8> = match decode_block_entropy(body, lang) {
                Ok(e) => e,
                Err(er) => {
                    return Err(er);
                },
            };
            let b = block_from_entropy(e.as_slice(), lang).unwrap();
            generators.push(b);
            proof {
                lemma_cat_single(entropy_views(generators@), b.entropy@);
                assert(entropy_views(generators@) =~= spec_parse_blocks(tv, lang));
            }
        }
        let nb: usize = generators.len();
        proof {
            assert(cat(spec_parse_blocks(tv, lang)) == cat(entropy_views(generators@)));
        }
        if n > 24 {
            if nb <= usize::MAX / 32 {
                let total: usize = 32 * nb;
                if tb > total {
                    return Err(SeedPhraserError::BadSequenceLength);
                }
            } else {
                proof {
                    assert(32 * (usize::MAX as int / 32 + 1) > usize::MAX);
                    assert(tb <= usize::MAX as int / 8);
                    assert(32 * nb as int > usize::MAX as int / 8);
                }
            }
        } else {
            let total: usize = generators[0].entropy.len();
            proof {
                lemma_cat_single(entropy_views(generators@), generators@[0].entropy@);
            }
            if tb > total {
                return Err(SeedPhraserError::BadSequenceLength);
            }
        }
        let m = AdvancedMnemonic { generators, trim: 8 * tb, padding: tb != 0, lang };
        proof {
            assert(m.trim as int % 8 == 0);
            assert(m.trim as int / 8 == tb as int);
            if n > 24 {
                assert(m.generators@.len() >= 2);
            }
            assert(m.trim as int / 8 <= cat(m.block_views()).len());
        }
        Ok(m)
    }

    /// Prints the mnemonic out to a string: the block phrases joined by
    /// single spaces, with the padding marker appended when padding trimmed
    /// a nonzero number of bits.
    pub fn to_string(self) -> (r: String)
        ensures
            r@ == self.text_view(),
    {
        let n = self.generators.len();
        let mut buffer: String = String::new();
        if n > 0 {
            buffer = self.generators[0].words.clone();
            proof {
                assert(word_views(self.generators@).subrange(0, 1) =~= seq![
                    self.generators@[0].words@,
                ]);
            }
            let mut k: usize = 1;
            while k < n
                invariant
                    1 <= k <= n,
                    n == self.generators@.len(),
                    buffer@ == joined(word_views(self.generators@).subrange(0, k as int)),
                decreases n - k,
            {
                buffer.append(" ");
                buffer.append(self.generators[k].words.as_str());
                proof {
                    reveal_strlit(" ");
                    assert(" "@ =~= seq![' ']);
                    let a = word_views(self.generators@).subrange(0, k as int);
                    let b = seq![self.generators@[k as int].words@];
                    lemma_joined_concat(a, b);
                    assert(a + b =~= word_views(self.generators@).subrange(0, k as int + 1));
                    assert(joined(b) == self.generators@[k as int].words@);
                }
                k += 1;
            }
            proof {
                assert(word_views(self.generators@).subrange(0, n as int) =~= word_views(
                    self.generators@,
                ));
            }
        } else {
            proof {
                assert(word_views(self.generators@) =~= Seq::<Seq<char>>::empty());
            }
        }
        if self.padding && self.trim != 0 {
            buffer.append(" @");
            let digits = format_decimal(self.trim / 8);
            buffer.append(digits.as_str());
            proof {
                reveal_strlit(" @");
                assert(" @"@ =~= seq![' ', '@']);
                assert(buffer@ =~= self.words_text() + seq![' ', '@'] + dec_digits(
                    (self.trim as int / 8) as nat,
                ));
            }
        }
        buffer
    }

    /// Serializes the mnemonic to its byte buffer: the block entropy
    /// concatenated in order, with the trimmed padding bytes removed from
    /// the end when padding ran. When the recorded trim exceeds the buffer
    /// (which no construction path produces) the buffer is returned whole.
    pub fn to_vec(self) -> (r: Vec<u8>)
        ensures
            r@ == self.byte_view(),
    {
        let n = self.generators.len();
        let mut buffer: Vec<u8> = Vec::new();
        let mut i: usize = 0;
        proof {
            assert(entropy_views(self.generators@).take(0) =~= Seq::<Seq<u8>>::empty());
        }
        while i < n
            invariant
                0 <= i <= n,
                n == self.generators@.len(),
                buffer@ == cat(entropy_views(self.generators@).take(i as int)),
            decreases n - i,
        {
            let e: &Vec<u8> = &self.generators[i].entropy;
            let mut j: usize = 0;
            let elen = e.len();
            while j < elen
                invariant
                    0 <= j <= elen,
                    elen == e@.len(),
                    e@ == self.generators@[i as int].entropy@,
                    i < n,
                    n == self.generators@.len(),
                    buffer@ == cat(entropy_views(self.generators@).take(i as int)) + e@.take(
                        j as int,
                    ),
                decreases elen - j,
            {
                buffer.push(e[j]);
                proof {
                    assert(e@.take(j as int + 1) =~= e@.take(j as int).push(e@[j as int]));
                    assert(buffer@ =~= cat(entropy_views(self.generators@).take(i as int))
                        + e@.take(j as int + 1));
                }
                j += 1;
            }
            proof {
                let views = entropy_views(self.generators@);
                assert(e@.take(elen as int) =~= e@);
                assert(views.take(i as int).push(e@) =~= views.take(i as int + 1));
                lemma_cat_push(views.take(i as int), e@);
            }
            i += 1;
        }
        proof {
            assert(entropy_views(self.generators@).take(n as int) =~= entropy_views(
                self.generators@,
            ));
        }
        if self.padding {
            let strip = self.trim / 8;
            if strip <= buffer.len() {
                let keep = buffer.len() - strip;
                buffer.truncate(keep);
                proof {
                    assert(buffer@ =~= cat(self.block_views()).take(
                        cat(self.block_views()).len() - self.trim as int / 8,
                    ));
                }
            }
        }
        buffer
    }
}

/// The byte buffer that a parsed phrase text serializes back to: the parsed
/// blocks concatenated, with the marker's padding bytes removed.
pub open spec fn spec_parse_byte_view(t: Seq<char>, lang: Language) -> Seq<u8> {
    let all = cat(spec_parse_blocks(t, lang));
    let tb = spec_trim_bytes(t);
    if tb != 0 && tb <= all.len() {
        all.take(all.len() - tb)
    } else {
        all
    }
}

/// Law: a mnemonic whose blocks, trim and padding flag are what a text
/// parses to serializes to exactly the text's parsed byte buffer. Together
/// with the contracts of `from_phrase` and `to_vec` this closes the phrase
/// round trip: parsing a text and serializing the result to bytes yields
/// `spec_parse_byte_view` of the text.
pub proof fn lemma_parsed_byte_view(m: AdvancedMnemonic, t: Seq<char>, lang: Language)
    requires
        m.block_views() == spec_parse_blocks(t, lang),
        m.trim == 8 * spec_trim_bytes(t),
        m.padding == (spec_trim_bytes(t) != 0),
    ensures
        m.byte_view() == spec_parse_byte_view(t, lang),
{
    let all = cat(m.block_views());
    let tb = spec_trim_bytes(t);
    assert(m.trim as int / 8 == tb) by {
        assert(8 * (m.trim as int / 8) == m.trim as int || m.trim as int % 8 != 0);
        assert(m.trim as int == 8 * tb);
        assert((8 * tb) % 8 == 0 && (8 * tb) / 8 == tb as int) by (nonlinear_arith);
    };
}

/// A canonical block phrase of at least one word is nonempty and neither
/// starts nor ends with whitespace.
proof fn lemma_block_phrase_shape(w: Seq<char>, k: nat)
    requires
        canonical_phrase(w, k),
        k >= 1,
    ensures
        w.len() > 0,
        !is_wsp(w[0]),
        !is_wsp(w[w.len() - 1]),
{
    crate::words::lemma_first_space(w);
    if w.len() == 0 {
        assert(split_words(w) == seq![w]);
        assert(split_words(w)[0].len() == 0);
    }
    crate::words::lemma_nonempty_pieces_ends(w);
}

/// Law: the phrase text of a well-formed mnemonic trims to itself, is
/// accepted by the phrase parser, and parses back to the same blocks, the
/// same padding, and the same byte buffer. Serializing the same mnemonic to
/// text and to bytes is therefore consistent under the inverse transforms.
pub proof fn lemma_text_round_trip(m: AdvancedMnemonic)
    requires
        m.wf(),
    ensures
        trim_spec(m.text_view()) == m.text_view(),
        spec_parse_ok(m.text_view(), m.lang),
        spec_parse_blocks(m.text_view(), m.lang) == m.block_views(),
        8 * spec_trim_bytes(m.text_view()) == m.trim,
        spec_parse_byte_view(m.text_view(), m.lang) == m.byte_view(),
{
    let gs = m.generators@;
    let vs = word_views(gs);
    let wt = m.words_text();
    let t = m.text_view();
    let nb = gs.len() as int;
    assert(vs.len() == nb);
    assert forall|i: int| 0 <= i < nb implies canonical_phrase(
        #[trigger] vs[i],
        (3 * (gs[i].entropy@.len() / 4)) as nat,
    ) && vs[i].len() > 0 && !is_wsp(vs[i][0]) && !is_wsp(vs[i][vs[i].len() - 1]) by {
        assert(gs[i].wf(m.lang));
        assert(vs[i] == gs[i].words@);
        lemma_block_phrase_shape(vs[i], (3 * (gs[i].entropy@.len() / 4)) as nat);
    }
    crate::words::lemma_joined_ends(vs);
    let nice = |c: char| c != '@' && (is_wsp(c) ==> c == ' ');
    assert forall|i: int, j: int| 0 <= i < vs.len() && 0 <= j < vs[i].len() implies nice(
        #[trigger] vs[i][j],
    ) by {
        assert(gs[i].wf(m.lang));
        assert(vs[i] == gs[i].words@);
    }
    crate::words::lemma_joined_chars(vs, nice);
    assert(!is_wsp(wt[0]));
    assert(!is_wsp(wt[wt.len() - 1])) by {
        assert(nice(wt[wt.len() - 1]));
        assert(wt[wt.len() - 1] == vs[nb - 1][vs[nb - 1].len() - 1]);
    }

    let tb_spec: nat = if m.padding && m.trim != 0 {
        (m.trim as int / 8) as nat
    } else {
        0
    };
    if m.padding && m.trim != 0 {
        let digits = dec_digits((m.trim as int / 8) as nat);
        crate::words::lemma_dec_round_trip((m.trim as int / 8) as nat);
        assert(t == wt + seq![' ', '@'] + digits);
        assert(t.len() == wt.len() + 2 + digits.len());
        assert(t[wt.len() as int] == ' ');
        assert(t[wt.len() as int + 1] == '@');
        assert(crate::words::marker_at(t, wt.len() as int));
        assert forall|j: int| wt.len() < j < t.len() - 1 implies !crate::words::marker_at(
            t,
            j,
        ) by {
            if j == wt.len() + 1 {
                assert(t[j] == '@');
            } else {
                assert(t[j] == digits[j - wt.len() - 2]);
                assert(is_digit(t[j]));
                crate::words::lemma_digit_not_special(t[j]);
            }
        }
        crate::words::lemma_last_marker_at(t, wt.len() as int);
        assert(marker_body(t) =~= wt);
        assert(marker_digits(t) =~= digits);
        assert(8 * dec_value(digits) == m.trim as int) by {
            assert(m.trim as int % 8 == 0);
            assert(8 * (m.trim as int / 8) == m.trim as int);
        };
        assert(marker_valid(t));
        assert(spec_trim_bytes(t) == tb_spec);
        assert(t[0] == wt[0]);
        assert(is_digit(t[t.len() - 1]));
        crate::words::lemma_digit_not_special(t[t.len() - 1]);
        crate::words::lemma_trim_id(t);
    } else {
        assert(t == wt);
        assert forall|j: int| 0 <= j < t.len() implies t[j] != '@' by {
            assert(nice(t[j]));
        }
        crate::words::lemma_no_at_no_marker(t);
        assert(marker_body(t) == wt);
        assert(marker_valid(t));
        assert(spec_trim_bytes(t) == 0);
        crate::words::lemma_trim_id(t);
    }
    assert(8 * spec_trim_bytes(t) == m.trim) by {
        if !(m.padding && m.trim != 0) {
            assert(m.trim == 0);
        }
    };

    crate::words::lemma_split_joined_flat(vs);
    let ws = split_words(marker_body(t));
    assert(ws == crate::words::flat_split(vs));

    if nb == 1 {
        assert(ws == split_words(vs[0]));
        assert(gs[0].wf(m.lang));
        assert(ws.len() == 3 * (gs[0].entropy@.len() / 4));
        assert(ws.len() <= 24);
        assert(decode_words(marker_body(t), m.lang) == Some(gs[0].entropy@));
        assert(spec_parse_blocks(t, m.lang) =~= m.block_views()) by {
            assert(entropy_views(gs) =~= seq![gs[0].entropy@]);
        };
        lemma_cat_single(m.block_views(), gs[0].entropy@);
    } else {
        assert forall|i: int| 0 <= i < vs.len() implies split_words(#[trigger] vs[i]).len()
            == 24 by {
            assert(gs[i].wf(m.lang));
            assert(gs[i].entropy@.len() == 32);
        }
        assert forall|g: int| 0 <= g < nb implies ws.subrange(24 * g, 24 * g + 24)
            == split_words(#[trigger] vs[g]) && ws.len() == 24 * nb by {
            crate::words::lemma_flat_split_group(vs, 24, g);
        }
        assert(ws.len() == 24 * nb);
        assert(ws.len() > 24) by {
            assert(24 * nb >= 48) by (nonlinear_arith)
                requires
                    nb >= 2,
            ;
        };
        assert(ws.len() as int % 24 == 0 && ws.len() as int / 24 == nb) by (nonlinear_arith)
            requires
                ws.len() == 24 * nb,
                nb >= 2,
        ;
        assert forall|g: int| 0 <= g < ws.len() / 24 implies (#[trigger] decode_words(
            group_of(ws, g),
            m.lang,
        )) == Some(gs[g].entropy@) by {
            assert(ws.subrange(24 * g, 24 * g + 24) == split_words(vs[g]));
            crate::words::lemma_join_split(vs[g]);
            assert(group_of(ws, g) == vs[g]);
            assert(gs[g].wf(m.lang));
        }
        assert(groups_ok(ws, m.lang)) by {
            assert forall|g: int| 0 <= g < ws.len() / 24 implies (#[trigger] decode_words(
                group_of(ws, g),
                m.lang,
            )) is Some && decode_words(group_of(ws, g), m.lang).unwrap().len() == 32 by {
                assert(decode_words(group_of(ws, g), m.lang) == Some(gs[g].entropy@));
                assert(gs[g].entropy@.len() == 32);
            }
        };
        assert(spec_parse_blocks(t, m.lang) =~= m.block_views()) by {
            assert forall|g: int| 0 <= g < nb implies spec_parse_blocks(t, m.lang)[g]
                == entropy_views(gs)[g] by {
                assert(decode_words(group_of(ws, g), m.lang) == Some(gs[g].entropy@));
            }
        };
    }
    assert(spec_trim_bytes(t) <= spec_parse_total(t, m.lang)) by {
        assert(cat(spec_parse_blocks(t, m.lang)) == cat(m.block_views()));
        assert(m.trim as int / 8 <= cat(m.block_views()).len());
        assert(spec_trim_bytes(t) == if m.padding && m.trim != 0 {
            m.trim as int / 8
        } else {
            0
        });
    };
    assert(spec_parse_ok(t, m.lang));
    assert(spec_parse_byte_view(t, m.lang) =~= m.byte_view()) by {
        let all = cat(m.block_views());
        assert(cat(spec_parse_blocks(t, m.lang)) == all);
        let tb = spec_trim_bytes(t);
        if m.padding && m.trim != 0 {
            assert(tb == m.trim as int / 8);
        } else {
            assert(tb == 0);
            if m.padding {
                assert(m.trim as int / 8 == 0);
                assert(all.take(all.len() - 0) =~= all);
            }
        }
    };
}

} // verus!
