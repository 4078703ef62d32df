//! The phrase text format: word sequences separated by single spaces, a
//! whitespace trim, decimal integers, and the trailing padding marker of the
//! form ` @<digits>`. Everything here is defined over character sequences
//! and proved; the exec functions mirror the spec functions exactly.

use vstd::prelude::*;
use vstd::string::StrSliceExecFns;
use vstd::string::StringExecFns;

verus! {

// ------------------------------------------------------------------
// Splitting on single spaces, and joining with single spaces.
// ------------------------------------------------------------------

/// Index of the first space in `s`, or `s.len()` if there is none.
pub open spec fn first_space(s: Seq<char>) -> int
    decreases s.len(),
{
    if s.len() == 0 {
        0
    } else if s[0] == ' ' {
        0
    } else {
        1 + first_space(s.skip(1))
    }
}

pub proof fn lemma_first_space(s: Seq<char>)
    ensures
        0 <= first_space(s) <= s.len(),
        forall|j: int| 0 <= j < first_space(s) ==> s[j] != ' ',
        first_space(s) < s.len() ==> s[first_space(s)] == ' ',
    decreases s.len(),
{
    if s.len() == 0 {
    } else if s[0] == ' ' {
    } else {
        lemma_first_space(s.skip(1));
        assert forall|j: int| 0 <= j < first_space(s) implies s[j] != ' ' by {
            if j > 0 {
                assert(s.skip(1)[j - 1] == s[j]);
            }
        }
        if first_space(s) < s.len() {
            assert(s.skip(1)[first_space(s) - 1] == s[first_space(s)]);
        }
    }
}

/// `first_space` is determined by its characterization.
pub proof fn lemma_first_space_at(s: Seq<char>, k: int)
    requires
        0 <= k <= s.len(),
        forall|j: int| 0 <= j < k ==> s[j] != ' ',
        k < s.len() ==> s[k] == ' ',
    ensures
        first_space(s) == k,
    decreases s.len(),
{
    if s.len() == 0 {
    } else if s[0] == ' ' {
        assert(k == 0);
    } else {
        assert(k >= 1);
        assert forall|j: int| 0 <= j < k - 1 implies s.skip(1)[j] != ' ' by {
            assert(s.skip(1)[j] == s[j + 1]);
        }
        if k - 1 < s.skip(1).len() {
            assert(s.skip(1)[k - 1] == s[k]);
        }
        lemma_first_space_at(s.skip(1), k - 1);
    }
}

/// No character of `s` is a space.
pub open spec fn space_free(s: Seq<char>) -> bool {
    forall|j: int| 0 <= j < s.len() ==> s[j] != ' '
}

/// The pieces of `s` between single spaces, in order. A piece may be empty;
/// splitting always yields at least one piece. This is exactly what
/// splitting a string on the space character yields.
pub open spec fn split_words(s: Seq<char>) -> Seq<Seq<char>>
    decreases s.len(),
{
    let i = first_space(s);
    if 0 <= i < s.len() {
        seq![s.take(i)] + split_words(s.skip(i + 1))
    } else {
        seq![s]
    }
}

/// `ws[0] + ' ' + ws[1] + ' ' + ...`: the words joined by single spaces.
pub open spec fn joined(ws: Seq<Seq<char>>) -> Seq<char>
    decreases ws.len(),
{
    if ws.len() == 0 {
        Seq::empty()
    } else if ws.len() == 1 {
        ws[0]
    } else {
        ws[0] + seq![' '] + joined(ws.skip(1))
    }
}

/// Splitting yields at least one piece and every piece is space-free.
pub proof fn lemma_split_words_props(s: Seq<char>)
    ensures
        split_words(s).len() >= 1,
        forall|i: int| 0 <= i < split_words(s).len() ==> space_free(
            #[trigger] split_words(s)[i],
        ),
    decreases s.len(),
{
    lemma_first_space(s);
    let fi = first_space(s);
    if 0 <= fi < s.len() {
        lemma_split_words_props(s.skip(fi + 1));
        assert(space_free(s.take(fi))) by {
            assert forall|j: int| 0 <= j < s.take(fi).len() implies s.take(fi)[j] != ' ' by {
                assert(s.take(fi)[j] == s[j]);
            }
        }
        assert forall|i: int| 0 <= i < split_words(s).len() implies space_free(
            #[trigger] split_words(s)[i],
        ) by {
            if i > 0 {
                assert(split_words(s)[i] == split_words(s.skip(fi + 1))[i - 1]);
            }
        }
    } else {
        assert(fi == s.len());
        assert(space_free(s));
    }
}

/// Joining the split of `s` restores `s` exactly.
pub proof fn lemma_join_split(s: Seq<char>)
    ensures
        joined(split_words(s)) == s,
    decreases s.len(),
{
    lemma_first_space(s);
    let fi = first_space(s);
    if 0 <= fi < s.len() {
        lemma_join_split(s.skip(fi + 1));
        lemma_split_words_props(s.skip(fi + 1));
        let rest = split_words(s.skip(fi + 1));
        assert(split_words(s) == seq![s.take(fi)] + rest);
        assert((seq![s.take(fi)] + rest).len() >= 2);
        assert((seq![s.take(fi)] + rest).skip(1) =~= rest);
        assert((seq![s.take(fi)] + rest)[0] == s.take(fi));
        assert(joined(split_words(s)) == s.take(fi) + seq![' '] + s.skip(fi + 1));
        assert(s.take(fi) + seq![' '] + s.skip(fi + 1) =~= s);
    } else {
        assert(split_words(s) == seq![s]);
    }
}

/// Splitting distributes over a single-space join of two texts.
pub proof fn lemma_split_concat(x: Seq<char>, y: Seq<char>)
    ensures
        split_words(x + seq![' '] + y) == split_words(x) + split_words(y),
    decreases x.len(),
{
    let s = x + seq![' '] + y;
    lemma_first_space(x);
    let fx = first_space(x);
    if fx == x.len() {
        assert forall|j: int| 0 <= j < x.len() as int implies s[j] != ' ' by {
            assert(s[j] == x[j]);
        }
        assert(s[x.len() as int] == ' ');
        lemma_first_space_at(s, x.len() as int);
        assert(s.take(x.len() as int) =~= x);
        assert(s.skip(x.len() as int + 1) =~= y);
        assert(split_words(s) == seq![x] + split_words(y));
        assert(split_words(x) == seq![x]);
        assert(seq![x] + split_words(y) =~= split_words(x) + split_words(y));
    } else {
        assert forall|j: int| 0 <= j < fx implies s[j] != ' ' by {
            assert(s[j] == x[j]);
        }
        assert(s[fx] == x[fx]);
        lemma_first_space_at(s, fx);
        assert(s.skip(fx + 1) =~= x.skip(fx + 1) + seq![' '] + y);
        lemma_split_concat(x.skip(fx + 1), y);
        assert(split_words(s) == seq![s.take(fx)] + (split_words(x.skip(fx + 1)) + split_words(
            y,
        )));
        assert(s.take(fx) =~= x.take(fx));
        assert(split_words(x) == seq![x.take(fx)] + split_words(x.skip(fx + 1)));
        assert(seq![x.take(fx)] + (split_words(x.skip(fx + 1)) + split_words(y)) =~= split_words(
            x,
        ) + split_words(y));
    }
}

/// Joining distributes over concatenation of nonempty word sequences.
pub proof fn lemma_joined_concat(a: Seq<Seq<char>>, b: Seq<Seq<char>>)
    requires
        a.len() >= 1,
        b.len() >= 1,
    ensures
        joined(a + b) == joined(a) + seq![' '] + joined(b),
    decreases a.len(),
{
    if a.len() == 1 {
        assert((a + b).len() >= 2);
        assert((a + b)[0] == a[0]);
        assert((a + b).skip(1) =~= b);
        assert(joined(a) == a[0]);
    } else {
        assert((a + b)[0] == a[0]);
        assert((a + b).skip(1) =~= a.skip(1) + b);
        lemma_joined_concat(a.skip(1), b);
        assert(a[0] + seq![' '] + (joined(a.skip(1)) + seq![' '] + joined(b)) =~= (a[0] + seq![' ']
            + joined(a.skip(1))) + seq![' '] + joined(b));
    }
}

/// The splits of several texts, concatenated in order.
pub open spec fn flat_split(vs: Seq<Seq<char>>) -> Seq<Seq<char>>
    decreases vs.len(),
{
    if vs.len() <= 1 {
        if vs.len() == 0 {
            Seq::empty()
        } else {
            split_words(vs[0])
        }
    } else {
        split_words(vs[0]) + flat_split(vs.skip(1))
    }
}

/// Splitting a single-space join splits each part in place.
pub proof fn lemma_split_joined_flat(vs: Seq<Seq<char>>)
    requires
        vs.len() >= 1,
    ensures
        split_words(joined(vs)) == flat_split(vs),
    decreases vs.len(),
{
    if vs.len() == 1 {
    } else {
        lemma_split_concat(vs[0], joined(vs.skip(1)));
        lemma_split_joined_flat(vs.skip(1));
    }
}

/// When every part splits into exactly `k` words, the flat split has
/// `k * vs.len()` words and its `g`-th group of `k` is the split of part `g`.
pub proof fn lemma_flat_split_group(vs: Seq<Seq<char>>, k: int, g: int)
    requires
        vs.len() >= 1,
        k >= 1,
        0 <= g < vs.len(),
        forall|i: int| 0 <= i < vs.len() ==> split_words(#[trigger] vs[i]).len() == k,
    ensures
        flat_split(vs).len() == k * vs.len(),
        flat_split(vs).subrange(k * g, k * g + k) == split_words(vs[g]),
    decreases vs.len(),
{
    if vs.len() == 1 {
        assert(flat_split(vs) == split_words(vs[0]));
        assert(flat_split(vs).subrange(0, k) =~= split_words(vs[0]));
        assert(k * 1 == k) by (nonlinear_arith);
    } else {
        let rest = vs.skip(1);
        assert(forall|i: int|
            0 <= i < rest.len() ==> split_words(#[trigger] rest[i]).len() == k) by {
            assert(forall|i: int| 0 <= i < rest.len() ==> rest[i] == vs[i + 1]);
        }
        lemma_flat_split_group(rest, k, if g == 0 {
            0
        } else {
            g - 1
        });
        assert(flat_split(vs) == split_words(vs[0]) + flat_split(rest));
        assert(flat_split(vs).len() == k + k * (vs.len() - 1));
        assert(k + k * (vs.len() - 1) == k * vs.len()) by (nonlinear_arith);
        if g == 0 {
            assert(flat_split(vs).subrange(0, k) =~= split_words(vs[0]));
        } else {
            assert(k * g >= k) by (nonlinear_arith)
                requires
                    k >= 1,
                    g >= 1,
            ;
            assert(k * (g - 1) == k * g - k) by (nonlinear_arith);
            assert(k * g + k <= k * vs.len()) by (nonlinear_arith)
                requires
                    k >= 1,
                    g + 1 <= vs.len(),
            ;
            assert(flat_split(vs).subrange(k * g, k * g + k) =~= flat_split(rest).subrange(
                k * (g - 1),
                k * (g - 1) + k,
            ));
            assert(rest[g - 1] == vs[g]);
        }
    }
}

/// A text whose split has only nonempty pieces does not start or end with a
/// space.
pub proof fn lemma_nonempty_pieces_ends(s: Seq<char>)
    requires
        s.len() > 0,
        forall|i: int|
            0 <= i < split_words(s).len() ==> (#[trigger] split_words(s)[i]).len() > 0,
    ensures
        s[0] != ' ',
        s[s.len() - 1] != ' ',
    decreases s.len(),
{
    lemma_first_space(s);
    let fi = first_space(s);
    if 0 <= fi < s.len() {
        assert(split_words(s)[0] == s.take(fi));
        assert(fi > 0);
        let rest = s.skip(fi + 1);
        assert(rest.len() > 0) by {
            if rest.len() == 0 {
                assert(split_words(s)[split_words(s).len() - 1] == split_words(rest)[split_words(
                    rest,
                ).len() - 1]);
                assert(split_words(rest) == seq![rest]);
            }
        }
        lemma_split_words_props(rest);
        assert forall|i: int|
            0 <= i < split_words(rest).len() implies (#[trigger] split_words(rest)[i]).len()
            > 0 by {
            assert(split_words(s)[i + 1] == split_words(rest)[i]);
        }
        lemma_nonempty_pieces_ends(rest);
        assert(s[s.len() - 1] == rest[rest.len() - 1]);
    } else {
        assert(split_words(s) == seq![s]);
        assert(split_words(s)[0] == s);
    }
}

/// Characters of a single-space join: every character is either a space or
/// a character of one of the parts, and the join starts and ends with the
/// first and last characters of the first and last parts.
pub proof fn lemma_joined_chars(vs: Seq<Seq<char>>, p: spec_fn(char) -> bool)
    requires
        vs.len() >= 1,
        p(' '),
        forall|i: int, j: int|
            0 <= i < vs.len() && 0 <= j < vs[i].len() ==> p(#[trigger] vs[i][j]),

    ensures
        forall|j: int| 0 <= j < joined(vs).len() ==> p(#[trigger] joined(vs)[j]),
    decreases vs.len(),
{
    if vs.len() == 1 {
        assert forall|j: int| 0 <= j < joined(vs).len() implies p(#[trigger] joined(vs)[j]) by {
            assert(joined(vs)[j] == vs[0][j]);
        }
    } else {
        let rest = vs.skip(1);
        assert forall|i: int, j: int|
            0 <= i < rest.len() && 0 <= j < rest[i].len() implies p(#[trigger] rest[i][j]) by {
            assert(rest[i] == vs[i + 1]);
        }
        lemma_joined_chars(rest, p);
        assert forall|j: int| 0 <= j < joined(vs).len() implies p(#[trigger] joined(vs)[j]) by {
            assert(joined(vs) == vs[0] + seq![' '] + joined(rest));
            if j < vs[0].len() {
                assert(joined(vs)[j] == vs[0][j]);
            } else if j == vs[0].len() {
                assert(joined(vs)[j] == ' ');
            } else {
                assert(joined(vs)[j] == joined(rest)[j - vs[0].len() - 1]);
            }
        }
    }
}

/// The first and last characters of a join of nonempty parts.
pub proof fn lemma_joined_ends(vs: Seq<Seq<char>>)
    requires
        vs.len() >= 1,
        forall|i: int| 0 <= i < vs.len() ==> (#[trigger] vs[i]).len() > 0,
    ensures
        joined(vs).len() > 0,
        joined(vs)[0] == vs[0][0],
        joined(vs)[joined(vs).len() - 1] == vs[vs.len() - 1][vs[vs.len() - 1].len() - 1],
    decreases vs.len(),
{
    if vs.len() == 1 {
    } else {
        let rest = vs.skip(1);
        assert forall|i: int| 0 <= i < rest.len() implies (#[trigger] rest[i]).len() > 0 by {
            assert(rest[i] == vs[i + 1]);
        }
        lemma_joined_ends(rest);
        assert(joined(vs) == vs[0] + seq![' '] + joined(rest));
        assert(rest[rest.len() - 1] == vs[vs.len() - 1]);
        assert(joined(vs)[joined(vs).len() - 1] == joined(rest)[joined(rest).len() - 1]);
    }
}

/// `last_marker` is determined by its characterization.
pub proof fn lemma_last_marker_at(s: Seq<char>, k: int)
    requires
        0 <= k <= s.len() - 2,
        marker_at(s, k),
        forall|j: int| k < j < s.len() - 1 ==> !marker_at(s, j),
    ensures
        last_marker(s) == k,
    decreases s.len(),
{
    if k == s.len() - 2 {
    } else {
        assert(!marker_at(s, s.len() - 2));
        assert(marker_at(s.drop_last(), k)) by {
            assert(s.drop_last()[k] == s[k]);
            assert(s.drop_last()[k + 1] == s[k + 1]);
        }
        assert forall|j: int| k < j < s.drop_last().len() - 1 implies !marker_at(
            s.drop_last(),
            j,
        ) by {
            assert(!marker_at(s, j));
            assert(s.drop_last()[j] == s[j]);
            assert(s.drop_last()[j + 1] == s[j + 1]);
        }
        lemma_last_marker_at(s.drop_last(), k);
    }
}

// ------------------------------------------------------------------
// Decimal integers.
// ------------------------------------------------------------------

pub open spec fn is_digit(c: char) -> bool {
    c == '0' || c == '1' || c == '2' || c == '3' || c == '4' || c == '5' || c == '6' || c == '7'
        || c == '8' || c == '9'
}

pub open spec fn digit_char(n: nat) -> char {
    if n == 0 {
        '0'
    } else if n == 1 {
        '1'
    } else if n == 2 {
        '2'
    } else if n == 3 {
        '3'
    } else if n == 4 {
        '4'
    } else if n == 5 {
        '5'
    } else if n == 6 {
        '6'
    } else if n == 7 {
        '7'
    } else if n == 8 {
        '8'
    } else {
        '9'
    }
}

pub open spec fn digit_val(c: char) -> nat {
    if c == '0' {
        0
    } else if c == '1' {
        1
    } else if c == '2' {
        2
    } else if c == '3' {
        3
    } else if c == '4' {
        4
    } else if c == '5' {
        5
    } else if c == '6' {
        6
    } else if c == '7' {
        7
    } else if c == '8' {
        8
    } else {
        9
    }
}

/// The decimal digits of `n`, most significant first, without leading zeros
/// (a single `'0'` for zero).
pub open spec fn dec_digits(n: nat) -> Seq<char>
    decreases n,
{
    if n < 10 {
        seq![digit_char(n)]
    } else {
        dec_digits(n / 10).push(digit_char(n % 10))
    }
}

pub open spec fn all_digits(s: Seq<char>) -> bool {
    forall|i: int| 0 <= i < s.len() ==> is_digit(#[trigger] s[i])
}

/// The value of a digit sequence read as a decimal number.
pub open spec fn dec_value(s: Seq<char>) -> nat
    decreases s.len(),
{
    if s.len() == 0 {
        0
    } else {
        dec_value(s.drop_last()) * 10 + digit_val(s.last())
    }
}

/// Printing a number and reading the digits back gives the number; the
/// printed digits are nonempty, digits only, and contain no space, marker
/// or whitespace character.
pub proof fn lemma_dec_round_trip(n: nat)
    ensures
        dec_value(dec_digits(n)) == n,
        dec_digits(n).len() >= 1,
        all_digits(dec_digits(n)),
    decreases n,
{
    if n < 10 {
        let d = dec_digits(n);
        assert(d == seq![digit_char(n)]);
        assert(d.len() == 1);
        assert(d.drop_last() =~= Seq::<char>::empty());
        assert(d.last() == digit_char(n));
        assert(digit_val(digit_char(n)) == n);
        assert(dec_value(d) == dec_value(d.drop_last()) * 10 + digit_val(d.last()));
        assert(dec_value(Seq::<char>::empty()) == 0);
    } else {
        lemma_dec_round_trip(n / 10);
        assert(dec_digits(n) == dec_digits(n / 10).push(digit_char(n % 10)));
        assert(dec_digits(n).len() >= 2);
        assert(dec_digits(n).drop_last() =~= dec_digits(n / 10));
        assert(dec_digits(n).last() == digit_char(n % 10));
        assert(n % 10 < 10);
        assert(digit_val(digit_char(n % 10)) == n % 10);
        assert(dec_value(dec_digits(n)) == dec_value(dec_digits(n).drop_last()) * 10 + digit_val(
            dec_digits(n).last(),
        ));
        assert(dec_value(dec_digits(n)) == (n / 10) * 10 + n % 10);
        assert((n / 10) * 10 + n % 10 == n) by (nonlinear_arith);
    }
}

/// A digit is not a space, a marker character, or whitespace.
pub proof fn lemma_digit_not_special(c: char)
    requires
        is_digit(c),
    ensures
        c != ' ' && c != '@' && !is_wsp(c),
{
}

/// A longer digit prefix never has a smaller value.
pub proof fn lemma_dec_value_prefix(s: Seq<char>, k: int)
    requires
        0 <= k <= s.len(),
    ensures
        dec_value(s) >= dec_value(s.take(k)),
    decreases s.len() - k,
{
    if k == s.len() {
        assert(s.take(k) =~= s);
    } else {
        lemma_dec_value_prefix(s, k + 1);
        assert(s.take(k + 1).drop_last() =~= s.take(k));
        assert(dec_value(s.take(k + 1)) == dec_value(s.take(k)) * 10 + digit_val(
            s.take(k + 1).last(),
        ));
    }
}

// ------------------------------------------------------------------
// Whitespace trim.
// ------------------------------------------------------------------

/// The whitespace characters the trim removes.
pub open spec fn is_wsp(c: char) -> bool {
    c == ' ' || c == '\t' || c == '\n' || c == '\r'
}

pub open spec fn leading_wsp(s: Seq<char>) -> int
    decreases s.len(),
{
    if s.len() == 0 {
        0
    } else if !is_wsp(s[0]) {
        0
    } else {
        1 + leading_wsp(s.skip(1))
    }
}

pub open spec fn trailing_wsp(s: Seq<char>) -> int
    decreases s.len(),
{
    if s.len() == 0 {
        0
    } else if !is_wsp(s.last()) {
        0
    } else {
        1 + trailing_wsp(s.drop_last())
    }
}

/// `s` without its leading and trailing whitespace.
pub open spec fn trim_spec(s: Seq<char>) -> Seq<char> {
    if leading_wsp(s) == s.len() {
        Seq::empty()
    } else {
        s.subrange(leading_wsp(s), s.len() - trailing_wsp(s))
    }
}

pub proof fn lemma_leading_wsp_at(s: Seq<char>, k: int)
    requires
        0 <= k <= s.len(),
        forall|j: int| 0 <= j < k ==> is_wsp(s[j]),
        k < s.len() ==> !is_wsp(s[k]),
    ensures
        leading_wsp(s) == k,
    decreases s.len(),
{
    if s.len() == 0 {
    } else if !is_wsp(s[0]) {
        assert(k == 0);
    } else {
        assert(k >= 1);
        assert forall|j: int| 0 <= j < k - 1 implies is_wsp(s.skip(1)[j]) by {
            assert(s.skip(1)[j] == s[j + 1]);
        }
        if k - 1 < s.skip(1).len() {
            assert(s.skip(1)[k - 1] == s[k]);
        }
        lemma_leading_wsp_at(s.skip(1), k - 1);
    }
}

pub proof fn lemma_trailing_wsp_at(s: Seq<char>, t: int)
    requires
        0 <= t <= s.len(),
        forall|j: int| s.len() - t <= j < s.len() ==> is_wsp(s[j]),
        t < s.len() ==> !is_wsp(s[s.len() - t - 1]),
    ensures
        trailing_wsp(s) == t,
    decreases s.len(),
{
    if s.len() == 0 {
    } else if !is_wsp(s.last()) {
        assert(t == 0);
    } else {
        assert(t >= 1);
        assert forall|j: int| s.drop_last().len() - (t - 1) <= j < s.drop_last().len() implies
            is_wsp(s.drop_last()[j]) by {
            assert(s.drop_last()[j] == s[j]);
        }
        if t - 1 < s.drop_last().len() {
            assert(s.drop_last()[s.drop_last().len() - (t - 1) - 1] == s[s.len() - t - 1]);
        }
        lemma_trailing_wsp_at(s.drop_last(), t - 1);
    }
}

/// A text with no whitespace at either end trims to itself.
pub proof fn lemma_trim_id(s: Seq<char>)
    requires
        s.len() > 0,
        !is_wsp(s[0]),
        !is_wsp(s[s.len() - 1]),
    ensures
        trim_spec(s) == s,
{
    lemma_leading_wsp_at(s, 0);
    lemma_trailing_wsp_at(s, 0);
    assert(s.subrange(0, s.len() as int) =~= s);
}

// ------------------------------------------------------------------
// The trailing padding marker ` @<digits>`.
// ------------------------------------------------------------------

/// There is a marker pair at index `j` of `s`.
pub open spec fn marker_at(s: Seq<char>, j: int) -> bool {
    s[j] == ' ' && s[j + 1] == '@'
}

/// The greatest index `i` with `s[i] == ' '` and `s[i + 1] == '@'`, or `-1`
/// if the pair occurs nowhere.
pub open spec fn last_marker(s: Seq<char>) -> int
    decreases s.len(),
{
    if s.len() < 2 {
        -1
    } else if s[s.len() - 2] == ' ' && s[s.len() - 1] == '@' {
        s.len() - 2
    } else {
        last_marker(s.drop_last())
    }
}

pub proof fn lemma_last_marker(s: Seq<char>)
    ensures
        -1 <= last_marker(s),
        last_marker(s) >= 0 ==> last_marker(s) <= s.len() - 2,
        last_marker(s) >= 0 ==> s[last_marker(s)] == ' ' && s[last_marker(s) + 1] == '@',
        forall|j: int| last_marker(s) < j < s.len() - 1 ==> !marker_at(s, j),
    decreases s.len(),
{
    if s.len() < 2 {
    } else if s[s.len() - 2] == ' ' && s[s.len() - 1] == '@' {
    } else {
        lemma_last_marker(s.drop_last());
        assert forall|j: int| last_marker(s) < j < s.len() - 1 implies !marker_at(s, j) by {
            if j < s.len() - 2 {
                assert(!marker_at(s.drop_last(), j));
                assert(s.drop_last()[j] == s[j]);
                assert(s.drop_last()[j + 1] == s[j + 1]);
            }
        }
        if last_marker(s) >= 0 {
            assert(s.drop_last()[last_marker(s)] == s[last_marker(s)]);
            assert(s.drop_last()[last_marker(s) + 1] == s[last_marker(s) + 1]);
        }
    }
}

/// A text with no `'@'` anywhere has no marker.
pub proof fn lemma_no_at_no_marker(s: Seq<char>)
    requires
        forall|j: int| 0 <= j < s.len() ==> s[j] != '@',
    ensures
        last_marker(s) == -1,
    decreases s.len(),
{
    if s.len() < 2 {
    } else {
        assert forall|j: int| 0 <= j < s.drop_last().len() implies s.drop_last()[j] != '@' by {
            assert(s.drop_last()[j] == s[j]);
        }
        lemma_no_at_no_marker(s.drop_last());
    }
}

// ------------------------------------------------------------------
// Exec counterparts.
// ------------------------------------------------------------------

/// The character views of a sequence of strings.
pub open spec fn views_of(ws: Seq<String>) -> Seq<Seq<char>> {
    ws.map_values(|w: String| w@)
}

/// Whether `c` is a character the trim removes.
pub fn is_wsp_char(c: char) -> (r: bool)
    ensures
        r == is_wsp(c),
{
    c == ' ' || c == '\t' || c == '\n' || c == '\r'
}

/// Splits `s` on single spaces, exactly as `split_words` describes.
pub fn split_on_space(s: &str) -> (r: Vec<String>)
    ensures
        views_of(r@) == split_words(s@),
{
    let n: usize = s.unicode_len();
    let mut words: Vec<String> = Vec::new();
    let mut start: usize = 0;
    let mut i: usize = 0;
    proof {
        assert(views_of(words@) =~= Seq::<Seq<char>>::empty());
        assert(s@.skip(0) =~= s@);
        assert(views_of(words@) + split_words(s@) =~= split_words(s@));
    }
    while i < n
        invariant
            0 <= start <= i <= n,
            n == s@.len(),
            forall|j: int| start <= j < i ==> s@[j] != ' ',
            split_words(s@) =~= views_of(words@) + split_words(s@.skip(start as int)),
        decreases n - i,
    {
        if s.get_char(i) == ' ' {
            let w = s.substring_char(start, i);
            proof {
                let tail = s@.skip(start as int);
                assert forall|j: int| 0 <= j < i - start implies tail[j] != ' ' by {
                    assert(tail[j] == s@[start + j]);
                }
                assert(tail[i - start] == s@[i as int]);
                lemma_first_space_at(tail, i - start);
                assert(tail.take(i - start) =~= s@.subrange(start as int, i as int));
                assert(tail.skip(i - start + 1) =~= s@.skip(i + 1));
                assert(split_words(tail) == seq![s@.subrange(start as int, i as int)]
                    + split_words(s@.skip(i + 1)));
            }
            let ghost old_words = words@;
            words.push(String::from_str(w));
            proof {
                assert(views_of(words@) =~= views_of(old_words).push(w@));
                assert(views_of(old_words).push(w@) =~= views_of(old_words) + seq![w@]);
            }
            start = i + 1;
        }
        i += 1;
    }
    let w = s.substring_char(start, n);
    proof {
        let tail = s@.skip(start as int);
        assert forall|j: int| 0 <= j < tail.len() implies tail[j] != ' ' by {
            assert(tail[j] == s@[start + j]);
        }
        lemma_first_space_at(tail, tail.len() as int);
        assert(split_words(tail) == seq![tail]);
        assert(tail =~= s@.subrange(start as int, n as int));
    }
    let ghost old_words = words@;
    words.push(String::from_str(w));
    proof {
        assert(views_of(words@) =~= views_of(old_words).push(w@));
        assert(views_of(old_words).push(w@) =~= views_of(old_words) + seq![w@]);
        assert(views_of(words@) =~= split_words(s@));
    }
    words
}

/// Joins `words[from..to]` with single spaces, exactly as `joined` describes.
pub fn join_range(words: &Vec<String>, from: usize, to: usize) -> (r: String)
    requires
        from < to <= words@.len(),
    ensures
        r@ == joined(views_of(words@).subrange(from as int, to as int)),
{
    let mut r: String = words[from].clone();
    proof {
        assert(views_of(words@).subrange(from as int, from as int + 1) =~= seq![
            words@[from as int]@,
        ]);
    }
    let mut k: usize = from + 1;
    while k < to
        invariant
            from < k <= to <= words@.len(),
            r@ == joined(views_of(words@).subrange(from as int, k as int)),
        decreases to - k,
    {
        r.append(" ");
        r.append(words[k].as_str());
        proof {
            reveal_strlit(" ");
            assert(" "@ =~= seq![' ']);
            let a = views_of(words@).subrange(from as int, k as int);
            let b = seq![words@[k as int]@];
            lemma_joined_concat(a, b);
            assert(a + b =~= views_of(words@).subrange(from as int, k as int + 1));
            assert(joined(b) == words@[k as int]@);
        }
        k += 1;
    }
    r
}

/// Removes leading and trailing whitespace, exactly as `trim_spec` describes.
pub fn trim_str(s: &str) -> (r: &str)
    ensures
        r@ == trim_spec(s@),
{
    let n: usize = s.unicode_len();
    let mut lo: usize = 0;
    while lo < n && is_wsp_char(s.get_char(lo))
        invariant
            0 <= lo <= n,
            n == s@.len(),
            forall|j: int| 0 <= j < lo ==> is_wsp(s@[j]),
        decreases n - lo,
    {
        lo += 1;
    }
    if lo == n {
        proof {
            lemma_leading_wsp_at(s@, n as int);
        }
        let r = s.substring_char(n, n);
        proof {
            assert(r@ =~= Seq::<char>::empty());
        }
        return r;
    }
    proof {
        lemma_leading_wsp_at(s@, lo as int);
    }
    let mut hi: usize = n;
    while hi > lo && is_wsp_char(s.get_char(hi - 1))
        invariant
            lo <= hi <= n,
            n == s@.len(),
            lo < n,
            !is_wsp(s@[lo as int]),
            forall|j: int| hi <= j < n ==> is_wsp(s@[j]),
        decreases hi,
    {
        hi -= 1;
    }
    proof {
        assert(hi > lo);
        lemma_trailing_wsp_at(s@, n - hi);
    }
    s.substring_char(lo, hi)
}

/// The string form of a single decimal digit.
fn digit_str(d: usize) -> (r: &'static str)
    requires
        d < 10,
    ensures
        r@ == seq![digit_char(d as nat)],
{
    proof {
        reveal_strlit("0");
        reveal_strlit("1");
        reveal_strlit("2");
        reveal_strlit("3");
        reveal_strlit("4");
        reveal_strlit("5");
        reveal_strlit("6");
        reveal_strlit("7");
        reveal_strlit("8");
        reveal_strlit("9");
    }
    let r: &'static str = if d == 0 {
        "0"
    } else if d == 1 {
        "1"
    } else if d == 2 {
        "2"
    } else if d == 3 {
        "3"
    } else if d == 4 {
        "4"
    } else if d == 5 {
        "5"
    } else if d == 6 {
        "6"
    } else if d == 7 {
        "7"
    } else if d == 8 {
        "8"
    } else {
        "9"
    };
    proof {
        assert(r@ =~= seq![digit_char(d as nat)]);
    }
    r
}

/// Prints `n` in decimal, exactly as `dec_digits` describes.
pub fn format_decimal(n: usize) -> (r: String)
    ensures
        r@ == dec_digits(n as nat),
    decreases n,
{
    if n < 10 {
        String::from_str(digit_str(n))
    } else {
        let mut s = format_decimal(n / 10);
        s.append(digit_str(n % 10));
        proof {
            assert(s@ =~= dec_digits((n / 10) as nat).push(digit_char((n % 10) as nat)));
        }
        s
    }
}

/// The numeric value of a decimal digit character.
fn char_digit(c: char) -> (r: Option<usize>)
    ensures
        r is Some <==> is_digit(c),
        r is Some ==> r.unwrap() as nat == digit_val(c),
{
    if c == '0' {
        Some(0)
    } else if c == '1' {
        Some(1)
    } else if c == '2' {
        Some(2)
    } else if c == '3' {
        Some(3)
    } else if c == '4' {
        Some(4)
    } else if c == '5' {
        Some(5)
    } else if c == '6' {
        Some(6)
    } else if c == '7' {
        Some(7)
    } else if c == '8' {
        Some(8)
    } else if c == '9' {
        Some(9)
    } else {
        None
    }
}

/// Reads `s[from..]` as a decimal number. Returns the value exactly when the
/// region is nonempty, all digits, and the value fits in `usize`.
pub fn parse_decimal_from(s: &str, from: usize) -> (r: Option<usize>)
    requires
        from <= s@.len(),
    ensures
        r is Some <==> (from < s@.len() && all_digits(s@.skip(from as int)) && dec_value(
            s@.skip(from as int),
        ) <= usize::MAX),
        r is Some ==> r.unwrap() as nat == dec_value(s@.skip(from as int)),
{
    let n: usize = s.unicode_len();
    let ghost region = s@.skip(from as int);
    if from >= n {
        return None;
    }
    let mut acc: usize = 0;
    let mut i: usize = from;
    while i < n
        invariant
            from <= i <= n,
            n == s@.len(),
            region == s@.skip(from as int),
            all_digits(s@.subrange(from as int, i as int)),
            acc as nat == dec_value(s@.subrange(from as int, i as int)),
        decreases n - i,
    {
        let c = s.get_char(i);
        let d = match char_digit(c) {
            Some(d) => d,
            None => {
                proof {
                    assert(region[i - from] == s@[i as int]);
                    assert(!all_digits(region));
                }
                return None;
            },
        };
        proof {
            assert(s@.subrange(from as int, i as int + 1).drop_last() =~= s@.subrange(
                from as int,
                i as int,
            ));
            assert(s@.subrange(from as int, i as int + 1).last() == s@[i as int]);
        }
        if acc > usize::MAX / 10 || (acc == usize::MAX / 10 && d > usize::MAX % 10) {
            proof {
                let grown = s@.subrange(from as int, i as int + 1);
                assert(dec_value(grown) == dec_value(s@.subrange(from as int, i as int)) * 10
                    + digit_val(s@[i as int]));
                assert(dec_value(grown) > usize::MAX) by {
                    assert(acc as nat * 10 + d as nat > usize::MAX) by (nonlinear_arith)
                        requires
                            acc as nat > usize::MAX as nat / 10 || (acc as nat == usize::MAX as nat
                                / 10 && d as nat > usize::MAX as nat % 10),
                            d < 10,
                    ;
                };
                lemma_dec_value_prefix(region, i - from + 1);
                assert(region.take(i - from + 1) =~= s@.subrange(from as int, i as int + 1));
                assert(dec_value(region) > usize::MAX);
            }
            return None;
        }
        acc = acc * 10 + d;
        i += 1;
    }
    proof {
        assert(s@.subrange(from as int, n as int) =~= region);
    }
    Some(acc)
}

/// Finds the last occurrence of the pair `" @"`, exactly as `last_marker`
/// describes.
pub fn find_marker(s: &str) -> (r: Option<usize>)
    ensures
        r is Some <==> last_marker(s@) >= 0,
        r is Some ==> r.unwrap() as int == last_marker(s@),
{
    let n: usize = s.unicode_len();
    let mut i: usize = n;
    proof {
        assert(s@.take(n as int) =~= s@);
    }
    while i >= 2
        invariant
            0 <= i <= n,
            n == s@.len(),
            last_marker(s@) == last_marker(s@.take(i as int)),
        decreases i,
    {
        if s.get_char(i - 2) == ' ' && s.get_char(i - 1) == '@' {
            proof {
                let t = s@.take(i as int);
                assert(t[i - 2] == s@[i - 2]);
                assert(t[i - 1] == s@[i - 1]);
                assert(last_marker(t) == i - 2);
            }
            return Some(i - 2);
        }
        proof {
            let t = s@.take(i as int);
            assert(t[i - 2] == s@[i - 2]);
            assert(t[i - 1] == s@[i - 1]);
            assert(t.drop_last() =~= s@.take(i - 1));
        }
        i -= 1;
    }
    proof {
        assert(last_marker(s@.take(i as int)) == -1);
    }
    None
}

} // verus!
