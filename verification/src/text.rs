//! Verified text utilities: word tokenization for the search index,
//! separator splitting for composite remote identifiers, and decimal
//! parsing for the numeric identifier segment.

use vstd::prelude::*;

verus! {

/// A character that belongs to a word of the search index: an ASCII
/// letter or digit, or any character outside the ASCII range.
pub open spec fn is_word_char(c: char) -> bool {
    (97 <= c as u32 && c as u32 <= 122)  // 'a'..='z'
    || (65 <= c as u32 && c as u32 <= 90)  // 'A'..='Z'
    || (48 <= c as u32 && c as u32 <= 57)  // '0'..='9'
    || c as u32 >= 128
}

/// Length of the maximal prefix of `s` made of word characters.
pub open spec fn word_len(s: Seq<char>) -> int
    decreases s.len(),
{
    if s.len() == 0 || !is_word_char(s[0]) {
        0
    } else {
        1 + word_len(s.skip(1))
    }
}

pub proof fn lemma_word_len_bounds(s: Seq<char>)
    ensures
        0 <= word_len(s) <= s.len(),
    decreases s.len(),
{
    if s.len() != 0 && is_word_char(s[0]) {
        lemma_word_len_bounds(s.skip(1));
    }
}

/// `word_len` is the unique boundary: all characters before it are word
/// characters, and it is the end of the string or a non-word character.
pub proof fn lemma_word_len_is(s: Seq<char>, w: int)
    requires
        0 <= w <= s.len(),
        forall|k: int| 0 <= k < w ==> is_word_char(s[k]),
        w == s.len() || !is_word_char(s[w]),
    ensures
        word_len(s) == w,
    decreases w,
{
    if w == 0 {
    } else {
        assert(is_word_char(s[0]));
        lemma_word_len_is(s.skip(1), w - 1);
    }
}

/// The sequence of maximal words of `s`, in order; separator characters
/// are dropped.
pub open spec fn spec_tokenize(s: Seq<char>) -> Seq<Seq<char>>
    decreases s.len(),
    when s.len() >= 0
    via spec_tokenize_decreases
{
    if s.len() == 0 {
        Seq::empty()
    } else if !is_word_char(s[0]) {
        spec_tokenize(s.skip(1))
    } else {
        seq![s.take(word_len(s))] + spec_tokenize(s.skip(word_len(s)))
    }
}

#[via_fn]
proof fn spec_tokenize_decreases(s: Seq<char>) {
    lemma_word_len_bounds(s);
    if s.len() != 0 && is_word_char(s[0]) {
        lemma_word_len_bounds(s.skip(1));
        assert(word_len(s) == 1 + word_len(s.skip(1)));
    }
}

/// Turns a string into its sequence of search words.
pub fn tokenize(s: &str) -> (res: Vec<String>)
    ensures
        res.deep_view() == spec_tokenize(s@),
{
    let n = s.unicode_len();
    let mut res: Vec<String> = Vec::new();
    let mut i: usize = 0;
    proof {
        assert(s@.skip(0) =~= s@);
        assert(res.deep_view() =~= Seq::<Seq<char>>::empty());
        assert(res.deep_view() + spec_tokenize(s@) =~= spec_tokenize(s@));
    }
    while i < n
        invariant
            i <= n,
            n == s@.len(),
            spec_tokenize(s@) == res.deep_view() + spec_tokenize(s@.skip(i as int)),
        decreases n - i,
    {
        let c = s.get_char(i);
        if !is_word_char_exec(c) {
            proof {
                assert(s@.skip(i as int).skip(1) =~= s@.skip(i + 1));
            }
            i = i + 1;
        } else {
            let mut j: usize = i + 1;
            while j < n
                invariant
                    i < j <= n,
                    n == s@.len(),
                    forall|k: int| i <= k < j ==> is_word_char(s@[k]),
                ensures
                    i < j <= n,
                    forall|k: int| i <= k < j ==> is_word_char(s@[k]),
                    j == n || !is_word_char(s@[j as int]),
                decreases n - j,
            {
                if !is_word_char_exec(s.get_char(j)) {
                    break;
                }
                j = j + 1;
            }
            let token = s.substring_char(i, j).to_owned();
            proof {
                let tail = s@.skip(i as int);
                lemma_word_len_is(tail, j - i);
                assert(tail.take(j - i) =~= s@.subrange(i as int, j as int));
                assert(tail.skip(j - i) =~= s@.skip(j as int));
                assert(spec_tokenize(tail) == seq![token@] + spec_tokenize(s@.skip(j as int)));
            }
            let ghost old_res = res.deep_view();
            res.push(token);
            proof {
                assert(res.deep_view() =~= old_res.push(token@));
                assert(res.deep_view() + spec_tokenize(s@.skip(j as int)) =~= old_res + (seq![
                    token@,
                ] + spec_tokenize(s@.skip(j as int))));
            }
            i = j;
        }
    }
    proof {
        assert(s@.skip(n as int) =~= Seq::<char>::empty());
        assert(res.deep_view() =~= res.deep_view() + spec_tokenize(s@.skip(n as int)));
    }
    res
}

/// Executable mirror of `is_word_char`.
pub fn is_word_char_exec(c: char) -> (b: bool)
    ensures
        b == is_word_char(c),
{
    let u = c as u32;
    (97 <= u && u <= 122) || (65 <= u && u <= 90) || (48 <= u && u <= 57) || u >= 128
}

/// Position of the first occurrence of `sep` in `s`, or `s.len()`.
pub open spec fn sep_pos(s: Seq<char>, sep: char) -> int
    decreases s.len(),
{
    if s.len() == 0 {
        0
    } else if s[0] == sep {
        0
    } else {
        1 + sep_pos(s.skip(1), sep)
    }
}

pub proof fn lemma_sep_pos_bounds(s: Seq<char>, sep: char)
    ensures
        0 <= sep_pos(s, sep) <= s.len(),
    decreases s.len(),
{
    if s.len() != 0 && s[0] != sep {
        lemma_sep_pos_bounds(s.skip(1), sep);
    }
}

/// `sep_pos` is the unique first occurrence.
pub proof fn lemma_sep_pos_is(s: Seq<char>, sep: char, p: int)
    requires
        0 <= p <= s.len(),
        forall|k: int| 0 <= k < p ==> s[k] != sep,
        p == s.len() || s[p] == sep,
    ensures
        sep_pos(s, sep) == p,
    decreases p,
{
    if p == 0 {
    } else {
        lemma_sep_pos_is(s.skip(1), sep, p - 1);
    }
}

/// The segments of `s` delimited by `sep`. Empty segments are kept, so
/// the result always has one segment more than `s` has separators.
pub open spec fn spec_split(s: Seq<char>, sep: char) -> Seq<Seq<char>>
    decreases s.len(),
    when s.len() >= 0
    via spec_split_decreases
{
    let k = sep_pos(s, sep);
    if k >= s.len() {
        seq![s]
    } else {
        seq![s.take(k)] + spec_split(s.skip(k + 1), sep)
    }
}

#[via_fn]
proof fn spec_split_decreases(s: Seq<char>, sep: char) {
    lemma_sep_pos_bounds(s, sep);
}

/// Splits a string on a separator character, keeping empty segments.
pub fn split_char(s: &str, sep: char) -> (res: Vec<String>)
    ensures
        res.deep_view() == spec_split(s@, sep),
{
    let n = s.unicode_len();
    let mut res: Vec<String> = Vec::new();
    let mut i: usize = 0;
    proof {
        assert(s@.skip(0) =~= s@);
        assert(res.deep_view() =~= Seq::<Seq<char>>::empty());
        assert(res.deep_view() + spec_split(s@, sep) =~= spec_split(s@, sep));
    }
    loop
        invariant_except_break
            spec_split(s@, sep) == res.deep_view() + spec_split(s@.skip(i as int), sep),
        invariant
            i <= n,
            n == s@.len(),
        ensures
            res.deep_view() == spec_split(s@, sep),
        decreases n - i,
    {
        let mut j: usize = i;
        while j < n
            invariant
                i <= j <= n,
                n == s@.len(),
                forall|k: int| i <= k < j ==> s@[k] != sep,
            ensures
                i <= j <= n,
                forall|k: int| i <= k < j ==> s@[k] != sep,
                j == n || s@[j as int] == sep,
            decreases n - j,
        {
            if s.get_char(j) == sep {
                break;
            }
            j = j + 1;
        }
        let segment = s.substring_char(i, j).to_owned();
        proof {
            let tail = s@.skip(i as int);
            lemma_sep_pos_is(tail, sep, j - i);
            assert(tail.take(j - i) =~= s@.subrange(i as int, j as int));
        }
        let ghost old_res = res.deep_view();
        res.push(segment);
        proof {
            assert(res.deep_view() =~= old_res.push(segment@));
        }
        if j == n {
            proof {
                let tail = s@.skip(i as int);
                assert(tail.take(j - i) =~= tail);
                assert(spec_split(tail, sep) == seq![segment@]);
                assert(res.deep_view() =~= old_res + seq![segment@]);
            }
            break;
        }
        proof {
            let tail = s@.skip(i as int);
            assert(tail.skip(j - i + 1) =~= s@.skip(j + 1));
            assert(spec_split(tail, sep) == seq![segment@] + spec_split(s@.skip(j + 1), sep));
            assert(res.deep_view() + spec_split(s@.skip(j + 1), sep) =~= old_res + (seq![segment@]
                + spec_split(s@.skip(j + 1), sep)));
        }
        i = j + 1;
    }
    res
}

/// An ASCII decimal digit.
pub open spec fn is_ascii_digit(c: char) -> bool {
    48 <= c as u32 && c as u32 <= 57
}

/// Numeric value of a digit character.
pub open spec fn digit_val(c: char) -> int {
    c as u32 - 48
}

/// A non-empty string of ASCII digits.
pub open spec fn is_digit_seq(s: Seq<char>) -> bool {
    s.len() > 0 && forall|i: int| 0 <= i < s.len() ==> is_ascii_digit(s[i])
}

/// Value of a digit string read in base ten.
pub open spec fn digits_val(s: Seq<char>) -> int
    decreases s.len(),
{
    if s.len() == 0 {
        0
    } else {
        digits_val(s.drop_last()) * 10 + digit_val(s.last())
    }
}

pub proof fn lemma_digits_val_nonneg(s: Seq<char>)
    requires
        forall|i: int| 0 <= i < s.len() ==> is_ascii_digit(s[i]),
    ensures
        digits_val(s) >= 0,
    decreases s.len(),
{
    if s.len() > 0 {
        lemma_digits_val_nonneg(s.drop_last());
    }
}

/// The value of a prefix never exceeds the value of the whole string.
pub proof fn lemma_digits_val_prefix(s: Seq<char>, i: int)
    requires
        0 <= i <= s.len(),
        forall|k: int| 0 <= k < s.len() ==> is_ascii_digit(s[k]),
    ensures
        digits_val(s.take(i)) <= digits_val(s),
    decreases s.len() - i,
{
    if i < s.len() {
        assert(s.take(i + 1).drop_last() =~= s.take(i));
        assert(s.take(i + 1).last() == s[i]);
        lemma_digits_val_nonneg(s.take(i));
        lemma_digits_val_prefix(s, i + 1);
    } else {
        assert(s.take(i) =~= s);
    }
}

/// Parses a non-empty all-digit decimal string into an `i64`.
/// Returns `None` when the string is empty, holds a non-digit, or its
/// value does not fit.
pub fn parse_decimal_i64(s: &str) -> (res: Option<i64>)
    ensures
        res is Some <==> is_digit_seq(s@) && digits_val(s@) <= i64::MAX,
        res matches Some(v) ==> v == digits_val(s@),
{
    let n = s.unicode_len();
    if n == 0 {
        return None;
    }
    let mut acc: i64 = 0;
    let mut i: usize = 0;
    while i < n
        invariant
            i <= n,
            n == s@.len(),
            forall|k: int| 0 <= k < i ==> is_ascii_digit(s@[k]),
            acc == digits_val(s@.take(i as int)),
            0 <= acc,
        decreases n - i,
    {
        let c = s.get_char(i);
        let u = c as u32;
        if !(48 <= u && u <= 57) {
            return None;
        }
        let d = (u - 48) as i64;
        proof {
            assert(s@.take(i + 1).drop_last() =~= s@.take(i as int));
            assert(s@.take(i + 1).last() == s@[i as int]);
        }
        if acc > 922337203685477580 || (acc == 922337203685477580 && d > 7) {
            proof {
                if is_digit_seq(s@) {
                    lemma_digits_val_prefix(s@, i + 1);
                }
            }
            return None;
        }
        acc = acc * 10 + d;
        i = i + 1;
    }
    proof {
        assert(s@.take(n as int) =~= s@);
    }
    Some(acc)
}

} // verus!
