//! Text as sequences of characters: cutting lines into pieces, trimming,
//! reading whole numbers and writing them.

use crate::indices::{is_picked, lemma_picked_grows};
use vstd::prelude::*;

verus! {

/// `String::push` appends one character.
pub assume_specification[ String::push ](s: &mut String, c: char)
    ensures
        final(s)@ == old(s)@.push(c),
;

/// What the standard library's Unicode mapping makes of a text in upper case.
pub uninterp spec fn uppercase(s: Seq<char>) -> Seq<char>;

/// What the standard library's Unicode mapping makes of a text in lower case.
pub uninterp spec fn lowercase(s: Seq<char>) -> Seq<char>;

/// An ASCII letter in upper case; any other character as it is.
pub open spec fn ascii_upper(c: char) -> char {
    if 'a' <= c && c <= 'z' {
        (c as u32 - 32) as char
    } else {
        c
    }
}

/// An ASCII letter in lower case; any other character as it is.
pub open spec fn ascii_lower(c: char) -> char {
    if 'A' <= c && c <= 'Z' {
        (c as u32 + 32) as char
    } else {
        c
    }
}

pub open spec fn all_ascii(s: Seq<char>) -> bool {
    forall|i: int| 0 <= i < s.len() ==> (#[trigger] s[i] as u32) < 128
}

/// `str::to_uppercase`: the text's Unicode upper case, which for an ASCII text
/// is the text with its letters capitalised.
#[verifier::external_body]
fn to_upper(s: &str) -> (r: String)
    ensures
        r@ == uppercase(s@),
        all_ascii(s@) ==> r@ == s@.map_values(|c: char| ascii_upper(c)),
{
    s.to_uppercase()
}

/// `str::to_lowercase`: the text's Unicode lower case, which for an ASCII text
/// is the text with its capitals lowered.
#[verifier::external_body]
fn to_lower(s: &str) -> (r: String)
    ensures
        r@ == lowercase(s@),
        all_ascii(s@) ==> r@ == s@.map_values(|c: char| ascii_lower(c)),
{
    s.to_lowercase()
}

/// A text in upper case: an ASCII text with its letters capitalised, any other
/// as the Unicode mapping has it.
pub open spec fn upper(s: Seq<char>) -> Seq<char> {
    if all_ascii(s) {
        s.map_values(|c: char| ascii_upper(c))
    } else {
        uppercase(s)
    }
}

/// A text in lower case: an ASCII text with its capitals lowered, any other as
/// the Unicode mapping has it.
pub open spec fn lower(s: Seq<char>) -> Seq<char> {
    if all_ascii(s) {
        s.map_values(|c: char| ascii_lower(c))
    } else {
        lowercase(s)
    }
}

/// A text in upper case.
pub fn upper_of(s: &str) -> (r: String)
    ensures
        r@ == upper(s@),
{
    to_upper(s)
}

/// A text in lower case.
pub fn lower_of(s: &str) -> (r: String)
    ensures
        r@ == lower(s@),
{
    to_lower(s)
}

/// The characters of Unicode's White_Space property.
pub open spec fn is_space(c: char) -> bool {
    ||| '\u{9}' <= c && c <= '\u{d}'
    ||| c == '\u{20}'
    ||| c == '\u{85}'
    ||| c == '\u{a0}'
    ||| c == '\u{1680}'
    ||| '\u{2000}' <= c && c <= '\u{200a}'
    ||| c == '\u{2028}'
    ||| c == '\u{2029}'
    ||| c == '\u{202f}'
    ||| c == '\u{205f}'
    ||| c == '\u{3000}'
}

pub fn space(c: char) -> (b: bool)
    ensures
        b == is_space(c),
{
    ('\u{9}' <= c && c <= '\u{d}') || c == '\u{20}' || c == '\u{85}' || c == '\u{a0}' || c
        == '\u{1680}' || ('\u{2000}' <= c && c <= '\u{200a}') || c == '\u{2028}' || c
        == '\u{2029}' || c == '\u{202f}' || c == '\u{205f}' || c == '\u{3000}'
}

pub open spec fn trim_end(s: Seq<char>) -> Seq<char>
    decreases s.len(),
{
    if s.len() > 0 && is_space(s.last()) {
        trim_end(s.drop_last())
    } else {
        s
    }
}

pub open spec fn trim_start(s: Seq<char>) -> Seq<char>
    decreases s.len(),
{
    if s.len() > 0 && is_space(s[0]) {
        trim_start(s.drop_first())
    } else {
        s
    }
}

/// A text without the white space at either end.
pub open spec fn trim(s: Seq<char>) -> Seq<char> {
    trim_end(trim_start(s))
}

/// The pieces of a text between the separators, empty ones included.
pub open spec fn split(s: Seq<char>, sep: char) -> Seq<Seq<char>>
    decreases s.len(),
{
    if s.len() == 0 {
        seq![Seq::<char>::empty()]
    } else {
        let before = split(s.drop_last(), sep);
        if s.last() == sep {
            before.push(Seq::empty())
        } else {
            before.drop_last().push(before.last().push(s.last()))
        }
    }
}

/// Where a character first stands in a text; its length if nowhere.
pub open spec fn first_at(s: Seq<char>, c: char) -> int
    decreases s.len(),
{
    if s.len() == 0 || s[0] == c {
        0
    } else {
        1 + first_at(s.drop_first(), c)
    }
}

/// The pieces of a list that are not blank, each trimmed.
pub open spec fn non_blank(pieces: Seq<Seq<char>>) -> Seq<Seq<char>>
    decreases pieces.len(),
{
    if pieces.len() == 0 {
        Seq::empty()
    } else {
        let before = non_blank(pieces.drop_last());
        let last = trim(pieces.last());
        if last.len() == 0 {
            before
        } else {
            before.push(last)
        }
    }
}

/// The texts behind a list of character vectors.
pub open spec fn texts(v: Seq<Vec<char>>) -> Seq<Seq<char>> {
    Seq::new(v.len(), |i: int| v[i]@)
}

/// The texts behind a list of strings.
pub open spec fn strings(v: Seq<String>) -> Seq<Seq<char>> {
    Seq::new(v.len(), |i: int| v[i]@)
}

pub proof fn lemma_split_is_never_empty(s: Seq<char>, sep: char)
    ensures
        split(s, sep).len() > 0,
    decreases s.len(),
{
    if s.len() > 0 {
        lemma_split_is_never_empty(s.drop_last(), sep);
    }
}

/// The characters of a text.
pub fn chars_of(s: &str) -> (r: Vec<char>)
    ensures
        r@ == s@,
{
    let mut r: Vec<char> = Vec::new();
    for c in it: s.chars()
        invariant
            it.seq() == s@,
            r@ == s@.take(it.index() as int),
    {
        r.push(c);
    }
    r
}

/// The text made of given characters.
pub fn string_of(s: &Vec<char>) -> (r: String)
    ensures
        r@ == s@,
{
    let mut r: String = String::new();
    let mut i: usize = 0;
    while i < s.len()
        invariant
            i <= s.len(),
            r@ == s@.take(i as int),
        decreases s.len() - i,
    {
        r.push(s[i]);
        i += 1;
    }
    r
}

/// The characters `from..to` of a text.
pub fn slice_of(s: &Vec<char>, from: usize, to: usize) -> (r: Vec<char>)
    requires
        from <= to <= s.len(),
    ensures
        r@ == s@.subrange(from as int, to as int),
{
    let mut r: Vec<char> = Vec::new();
    let mut i: usize = from;
    while i < to
        invariant
            from <= i <= to <= s.len(),
            r@ == s@.subrange(from as int, i as int),
        decreases to - i,
    {
        r.push(s[i]);
        i += 1;
    }
    r
}

/// A text without the white space at either end.
pub fn trimmed(s: &Vec<char>) -> (r: Vec<char>)
    ensures
        r@ == trim(s@),
{
    let n: usize = s.len();
    let mut lo: usize = 0;
    assert(s@.subrange(0, n as int) =~= s@);
    while lo < n && space(s[lo])
        invariant
            lo <= n,
            n == s.len(),
            trim_start(s@) == trim_start(s@.subrange(lo as int, n as int)),
        decreases n - lo,
    {
        assert(s@.subrange(lo as int, n as int).drop_first() =~= s@.subrange(
            lo + 1,
            n as int,
        ));
        lo += 1;
    }
    assert(trim_start(s@) == s@.subrange(lo as int, n as int));
    let mut hi: usize = n;
    while hi > lo && space(s[hi - 1])
        invariant
            lo <= hi <= n,
            n == s.len(),
            trim_start(s@) == s@.subrange(lo as int, n as int),
            trim(s@) == trim_end(s@.subrange(lo as int, hi as int)),
        decreases hi,
    {
        assert(s@.subrange(lo as int, hi as int).drop_last() =~= s@.subrange(
            lo as int,
            hi - 1,
        ));
        hi -= 1;
    }
    slice_of(s, lo, hi)
}

/// The pieces of a text between the separators, empty ones included.
pub fn pieces(s: &Vec<char>, sep: char) -> (r: Vec<Vec<char>>)
    ensures
        texts(r@) == split(s@, sep),
{
    let mut done: Vec<Vec<char>> = Vec::new();
    let mut current: Vec<char> = Vec::new();
    let mut i: usize = 0;
    assert(texts(done@).push(current@) =~= split(s@.take(0), sep));
    while i < s.len()
        invariant
            i <= s.len(),
            texts(done@).push(current@) =~= split(s@.take(i as int), sep),
        decreases s.len() - i,
    {
        let ghost before = split(s@.take(i as int), sep);
        let ghost was = done@;
        let ghost piece = current@;
        assert(s@.take(i + 1).drop_last() =~= s@.take(i as int));
        assert(before.last() == piece);
        assert(before.drop_last() =~= texts(was));
        if s[i] == sep {
            done.push(current);
            current = Vec::new();
            assert(texts(done@) =~= before);
        } else {
            current.push(s[i]);
        }
        i += 1;
    }
    assert(s@.take(i as int) =~= s@);
    let ghost was = done@;
    let ghost piece = current@;
    done.push(current);
    assert(texts(done@) =~= texts(was).push(piece));
    done
}

pub proof fn lemma_first_at(s: Seq<char>, c: char, at: int)
    requires
        0 <= at <= s.len(),
        forall|i: int| 0 <= i < at ==> s[i] != c,
        at < s.len() ==> s[at] == c,
    ensures
        first_at(s, c) == at,
    decreases s.len(),
{
    if s.len() > 0 && s[0] != c {
        assert(at > 0);
        assert forall|i: int| 0 <= i < at - 1 implies s.drop_first()[i] != c by {
            assert(s[i + 1] != c);
        }
        lemma_first_at(s.drop_first(), c, at - 1);
    }
}

pub proof fn lemma_first_at_bounds(s: Seq<char>, c: char)
    ensures
        0 <= first_at(s, c) <= s.len(),
        first_at(s, c) < s.len() ==> s[first_at(s, c)] == c,
        forall|i: int| 0 <= i < first_at(s, c) ==> s[i] != c,
    decreases s.len(),
{
    if s.len() > 0 && s[0] != c {
        lemma_first_at_bounds(s.drop_first(), c);
        let at = first_at(s.drop_first(), c);
        assert forall|i: int| 0 <= i < 1 + at implies s[i] != c by {
            if i > 0 {
                assert(s.drop_first()[i - 1] == s[i]);
            }
        }
    }
}

/// Where a character first stands in a text; its length if nowhere.
pub fn position_of(s: &Vec<char>, c: char) -> (at: usize)
    ensures
        at == first_at(s@, c),
        at <= s.len(),
{
    let mut i: usize = 0;
    while i < s.len() && s[i] != c
        invariant
            i <= s.len(),
            forall|k: int| 0 <= k < i ==> s@[k] != c,
        decreases s.len() - i,
    {
        i += 1;
    }
    proof {
        lemma_first_at(s@, c, i as int);
    }
    i
}

/// The pieces of a list that are not blank, each trimmed.
pub fn non_blank_pieces(v: &Vec<Vec<char>>) -> (r: Vec<Vec<char>>)
    ensures
        texts(r@) == non_blank(texts(v@)),
{
    let mut r: Vec<Vec<char>> = Vec::new();
    let mut i: usize = 0;
    assert(texts(r@) =~= non_blank(texts(v@).take(0)));
    while i < v.len()
        invariant
            i <= v.len(),
            texts(r@) == non_blank(texts(v@).take(i as int)),
        decreases v.len() - i,
    {
        assert(texts(v@).take(i + 1).drop_last() =~= texts(v@).take(i as int));
        let t: Vec<char> = trimmed(&v[i]);
        if t.len() > 0 {
            let ghost was = r@;
            let ghost piece = t@;
            r.push(t);
            assert(texts(r@) =~= texts(was).push(piece));
        }
        i += 1;
    }
    assert(texts(v@).take(i as int) =~= texts(v@));
    r
}

/// Whether a character ends a word: a comma or white space.
pub open spec fn is_gap(c: char) -> bool {
    c == ',' || is_space(c)
}

/// The words of a text: what stands between commas and white space. `open` says
/// whether the last word is still going on.
pub open spec fn words(s: Seq<char>) -> (Seq<Seq<char>>, bool)
    decreases s.len(),
{
    if s.len() == 0 {
        (Seq::empty(), false)
    } else {
        let (before, open) = words(s.drop_last());
        if is_gap(s.last()) {
            (before, false)
        } else if open {
            (before.drop_last().push(before.last().push(s.last())), true)
        } else {
            (before.push(seq![s.last()]), true)
        }
    }
}

/// The words of a text.
pub fn words_of(s: &Vec<char>) -> (r: Vec<Vec<char>>)
    ensures
        texts(r@) == words(s@).0,
{
    let mut done: Vec<Vec<char>> = Vec::new();
    let mut current: Vec<char> = Vec::new();
    let mut open: bool = false;
    let mut i: usize = 0;
    assert(texts(done@) =~= words(s@.take(0)).0);
    while i < s.len()
        invariant
            i <= s@.len(),
            open == words(s@.take(i as int)).1,
            !open ==> current@.len() == 0 && texts(done@) =~= words(s@.take(i as int)).0,
            open ==> texts(done@).push(current@) =~= words(s@.take(i as int)).0,
        decreases s.len() - i,
    {
        let ghost before = words(s@.take(i as int)).0;
        let ghost was = done@;
        let ghost word = current@;
        let c: char = s[i];
        assert(s@.take(i + 1).drop_last() =~= s@.take(i as int));
        if open {
            assert(before.last() == word);
            assert(before.drop_last() =~= texts(was));
        }
        if c == ',' || space(c) {
            if open {
                done.push(current);
                current = Vec::new();
                assert(texts(done@) =~= before);
            }
            open = false;
        } else {
            current.push(c);
            assert(seq![c] =~= Seq::<char>::empty().push(c));
            if !open {
                assert(word =~= Seq::<char>::empty());
            }
            open = true;
        }
        i += 1;
    }
    assert(s@.take(i as int) =~= s@);
    if open {
        let ghost was = done@;
        let ghost word = current@;
        done.push(current);
        assert(texts(done@) =~= texts(was).push(word));
    }
    done
}

/// Whether two texts are the same.
pub fn same_chars(a: &Vec<char>, b: &Vec<char>) -> (r: bool)
    ensures
        r == (a@ == b@),
{
    if a.len() != b.len() {
        return false;
    }
    let mut i: usize = 0;
    while i < a.len()
        invariant
            a.len() == b.len(),
            i <= a.len(),
            forall|k: int| 0 <= k < i ==> a@[k] == b@[k],
        decreases a.len() - i,
    {
        if a[i] != b[i] {
            return false;
        }
        i += 1;
    }
    assert(a@ =~= b@);
    true
}

/// Whether two texts are the same.
pub fn same_text(a: &str, b: &str) -> (r: bool)
    ensures
        r == (a@ == b@),
{
    same_chars(&chars_of(a), &chars_of(b))
}

// ---- whole numbers ----

pub open spec fn is_digit(c: char) -> bool {
    '0' <= c && c <= '9'
}

pub open spec fn digit_value(c: char) -> int {
    c as u32 - '0' as u32
}

pub open spec fn all_digits(s: Seq<char>) -> bool {
    forall|i: int| 0 <= i < s.len() ==> is_digit(#[trigger] s[i])
}

/// Value of a run of decimal digits.
pub open spec fn digits_value(s: Seq<char>) -> int
    decreases s.len(),
{
    if s.len() == 0 {
        0
    } else {
        10 * digits_value(s.drop_last()) + digit_value(s.last())
    }
}

/// The whole number a text spells: an optional sign and at least one digit.
pub open spec fn integer(s: Seq<char>) -> Option<int> {
    let signed = s.len() > 0 && (s[0] == '+' || s[0] == '-');
    let digits = if signed {
        s.drop_first()
    } else {
        s
    };
    if digits.len() == 0 || !all_digits(digits) {
        None
    } else if signed && s[0] == '-' {
        Some(-digits_value(digits))
    } else {
        Some(digits_value(digits))
    }
}

/// The 64-bit number a text spells, if it spells one.
pub open spec fn integer64(s: Seq<char>) -> Option<i64> {
    match integer(s) {
        Some(v) => if i64::MIN <= v <= i64::MAX {
            Some(v as i64)
        } else {
            None
        },
        None => None,
    }
}

/// Greatest value told apart when reading digits.
pub const DIGITS_CAP: u128 = 0x1_0000_0000_0000_0000;

/// The value of the digits from `start` on, values over the cap all read as
/// one above it; nothing when there is no digit or something else.
fn parse_digits(s: &Vec<char>, start: usize) -> (r: Option<u128>)
    requires
        start <= s.len(),
    ensures
        r is Some <==> start < s.len() && all_digits(s@.skip(start as int)),
        r matches Some(v) ==> v == if digits_value(s@.skip(start as int)) <= DIGITS_CAP {
            digits_value(s@.skip(start as int))
        } else {
            DIGITS_CAP + 1
        },
{
    let n: usize = s.len();
    if n == start {
        return None;
    }
    let ghost digits = s@.skip(start as int);
    let mut value: u128 = 0;
    let mut i: usize = start;
    assert(digits.take(0) =~= Seq::<char>::empty());
    while i < n
        invariant
            start <= i <= n,
            start < n,
            n == s.len(),
            digits == s@.skip(start as int),
            all_digits(digits.take(i - start)),
            0 <= digits_value(digits.take(i - start)),
            value == if digits_value(digits.take(i - start)) <= DIGITS_CAP {
                digits_value(digits.take(i - start))
            } else {
                DIGITS_CAP + 1
            },
        decreases n - i,
    {
        let c: char = s[i];
        assert(digits[i - start] == c);
        if !('0' <= c && c <= '9') {
            return None;
        }
        let ghost before = digits.take(i - start);
        let ghost after = digits.take(i + 1 - start);
        assert(after.drop_last() =~= before);
        assert(after.last() == c);
        let d: u128 = (c as u32 - '0' as u32) as u128;
        assert(digits_value(after) == 10 * digits_value(before) + d);
        let next: u128 = 10 * value + d;
        value = if next <= DIGITS_CAP {
            next
        } else {
            DIGITS_CAP + 1
        };
        assert forall|k: int| 0 <= k < after.len() implies is_digit(#[trigger] after[k]) by {
            if k < before.len() {
                assert(after[k] == before[k]);
            }
        }
        i += 1;
    }
    assert(digits.take(n - start) =~= digits);
    Some(value)
}

/// The 64-bit number a text spells, if it spells one.
pub fn parse_integer(s: &Vec<char>) -> (r: Option<i64>)
    ensures
        r == integer64(s@),
{
    let n: usize = s.len();
    assert(s@.skip(0) =~= s@);
    if n > 0 && (s[0] == '+' || s[0] == '-') {
        assert(s@.skip(1) =~= s@.drop_first());
        match parse_digits(s, 1) {
            None => None,
            Some(value) => if s[0] == '-' {
                if value <= 0x8000_0000_0000_0000 {
                    Some((-(value as i128)) as i64)
                } else {
                    None
                }
            } else if value <= 0x7fff_ffff_ffff_ffff {
                Some(value as i64)
            } else {
                None
            },
        }
    } else {
        match parse_digits(s, 0) {
            None => None,
            Some(value) => if value <= 0x7fff_ffff_ffff_ffff {
                Some(value as i64)
            } else {
                None
            },
        }
    }
}

pub open spec fn digit_char(d: int) -> char {
    (48 + d) as char
}

/// A number in decimal, without leading zeros.
pub open spec fn decimal(n: nat) -> Seq<char>
    decreases n,
{
    if n < 10 {
        seq![digit_char(n as int)]
    } else {
        decimal(n / 10).push(digit_char((n % 10) as int))
    }
}

/// A number in decimal, with leading zeros up to four digits.
pub open spec fn decimal4(n: nat) -> Seq<char> {
    if n < 10 {
        seq!['0', '0', '0'] + decimal(n)
    } else if n < 100 {
        seq!['0', '0'] + decimal(n)
    } else if n < 1000 {
        seq!['0'] + decimal(n)
    } else {
        decimal(n)
    }
}

/// The character of one decimal digit.
pub fn digit(d: u8) -> (c: char)
    requires
        d < 10,
    ensures
        c == digit_char(d as int),
{
    (48 + d) as char
}

/// Appends a number in decimal.
pub fn push_decimal(s: &mut String, n: usize)
    ensures
        final(s)@ == old(s)@ + decimal(n as nat),
    decreases n,
{
    if n >= 10 {
        push_decimal(s, n / 10);
    }
    s.push(digit((n % 10) as u8));
    assert(s@ =~= old(s)@ + decimal(n as nat));
}

/// Appends a number in decimal with leading zeros up to four digits.
pub fn push_decimal4(s: &mut String, n: usize)
    ensures
        final(s)@ == old(s)@ + decimal4(n as nat),
{
    if n < 1000 {
        s.push('0');
    }
    if n < 100 {
        s.push('0');
    }
    if n < 10 {
        s.push('0');
    }
    push_decimal(s, n);
    assert(s@ =~= old(s)@ + decimal4(n as nat));
}

/// Reading a number back from its decimal text gives the number.
pub proof fn law_decimal_reads_back(n: nat)
    ensures
        decimal(n).len() > 0,
        all_digits(decimal(n)),
        digits_value(decimal(n)) == n,
        integer(decimal(n)) == Some(n as int),
    decreases n,
{
    let s = decimal(n);
    if n < 10 {
        assert(s.drop_last() =~= Seq::<char>::empty());
        assert(digits_value(Seq::<char>::empty()) == 0);
    } else {
        law_decimal_reads_back(n / 10);
        assert(s.drop_last() =~= decimal(n / 10));
    }
    assert(is_digit(s[0]));
}

/// Two numbers with the same decimal text are the same number.
pub proof fn law_decimal_is_injective(a: nat, b: nat)
    requires
        decimal(a) == decimal(b),
    ensures
        a == b,
{
    law_decimal_reads_back(a);
    law_decimal_reads_back(b);
}

// ---- what texts are taken apart into ----

/// A text without the white space at either end is the part of it from `r.0` to
/// `r.1`: only white space stands outside, and none at its ends.
pub proof fn law_trim(s: Seq<char>) -> (r: (int, int))
    ensures
        0 <= r.0 <= r.1 <= s.len(),
        trim(s) == s.subrange(r.0, r.1),
        forall|i: int| 0 <= i < r.0 || r.1 <= i < s.len() ==> is_space(#[trigger] s[i]),
        r.0 < r.1 ==> !is_space(s[r.0]) && !is_space(s[r.1 - 1]),
{
    let lo = lemma_trim_start(s);
    let t = trim_start(s);
    let hi = lemma_trim_end(t);
    assert(t.subrange(0, hi) =~= s.subrange(lo, lo + hi));
    assert forall|i: int| lo + hi <= i < s.len() implies is_space(#[trigger] s[i]) by {
        assert(t[i - lo] == s[i]);
    }
    if hi > 0 {
        assert(t[0] == s[lo] && t[hi - 1] == s[lo + hi - 1]);
    }
    (lo, lo + hi)
}

proof fn lemma_trim_start(s: Seq<char>) -> (lo: int)
    ensures
        0 <= lo <= s.len(),
        trim_start(s) == s.subrange(lo, s.len() as int),
        forall|i: int| 0 <= i < lo ==> is_space(#[trigger] s[i]),
        lo < s.len() ==> !is_space(s[lo]),
    decreases s.len(),
{
    if s.len() > 0 && is_space(s[0]) {
        let rest = s.drop_first();
        let at = lemma_trim_start(rest);
        assert(rest.subrange(at, rest.len() as int) =~= s.subrange(at + 1, s.len() as int));
        assert forall|i: int| 0 <= i < at + 1 implies is_space(#[trigger] s[i]) by {
            if i > 0 {
                assert(rest[i - 1] == s[i]);
            }
        }
        if at < rest.len() {
            assert(rest[at] == s[at + 1]);
        }
        at + 1
    } else {
        assert(s.subrange(0, s.len() as int) =~= s);
        0
    }
}

proof fn lemma_trim_end(s: Seq<char>) -> (hi: int)
    ensures
        0 <= hi <= s.len(),
        trim_end(s) == s.subrange(0, hi),
        forall|i: int| hi <= i < s.len() ==> is_space(#[trigger] s[i]),
        hi > 0 ==> !is_space(s[hi - 1]),
    decreases s.len(),
{
    if s.len() > 0 && is_space(s.last()) {
        let rest = s.drop_last();
        let at = lemma_trim_end(rest);
        assert(rest.subrange(0, at) =~= s.subrange(0, at));
        assert forall|i: int| at <= i < s.len() implies is_space(#[trigger] s[i]) by {
            if i < rest.len() {
                assert(rest[i] == s[i]);
            }
        }
        at
    } else {
        assert(s.subrange(0, s.len() as int) =~= s);
        s.len() as int
    }
}

/// Among the ASCII characters white space is the blank, and tab to carriage
/// return.
pub proof fn law_ascii_spaces(c: char)
    requires
        (c as u32) < 128,
    ensures
        is_space(c) <==> c as u32 == 32 || 9 <= c as u32 <= 13,
{
}

/// Pieces put together, a separator between each two.
pub open spec fn joined_by(pieces: Seq<Seq<char>>, sep: char) -> Seq<char>
    decreases pieces.len(),
{
    if pieces.len() == 0 {
        Seq::empty()
    } else if pieces.len() == 1 {
        pieces[0]
    } else {
        joined_by(pieces.drop_last(), sep).push(sep) + pieces.last()
    }
}

/// The pieces of a text hold no separator, and put together with separators they
/// are the text.
pub proof fn law_pieces_join_to_the_text(s: Seq<char>, sep: char)
    ensures
        split(s, sep).len() > 0,
        joined_by(split(s, sep), sep) == s,
        forall|p: int| 0 <= p < split(s, sep).len() ==> !(#[trigger] split(s, sep)[p]).contains(sep),
    decreases s.len(),
{
    let now = split(s, sep);
    if s.len() == 0 {
        assert(joined_by(now, sep) =~= s);
    } else {
        let front = s.drop_last();
        law_pieces_join_to_the_text(front, sep);
        let was = split(front, sep);
        if s.last() == sep {
            assert(now.drop_last() =~= was);
            assert(joined_by(now, sep) =~= s);
        } else {
            let more = was.last().push(s.last());
            assert(!more.contains(sep)) by {
                if more.contains(sep) {
                    let i = choose|i: int| 0 <= i < more.len() && more[i] == sep;
                    assert(was.last()[i] == sep);
                    assert(was[was.len() - 1].contains(sep));
                }
            }
            assert(now.drop_last() =~= was.drop_last());
            assert(now.last() == more);
            if was.len() == 1 {
                assert(now[0] == more);
                assert(was[0] == was.last());
                assert(more =~= s);
            } else {
                let head = joined_by(was.drop_last(), sep).push(sep);
                assert(front == head + was.last());
                assert(s =~= front.push(s.last()));
                assert((head + was.last()).push(s.last()) =~= head + more);
                assert(now.len() == was.len());
                assert(joined_by(now, sep) == head + more);
            }
            assert forall|p: int| 0 <= p < now.len() implies !(#[trigger] now[p]).contains(
                sep,
            ) by {
                if p < was.len() - 1 {
                    assert(now[p] == was[p]);
                }
            }
        }
    }
}

/// Which pieces hold more than white space.
pub open spec fn not_blank(pieces: Seq<Seq<char>>) -> spec_fn(int) -> bool {
    |i: int| trim(pieces[i]).len() > 0
}

/// The pieces that are not blank come trimmed, in their order and none left out.
pub proof fn law_blank_pieces_are_left_out(pieces: Seq<Seq<char>>, k: int)
    requires
        0 <= k <= pieces.len(),
    ensures
        is_picked(non_blank(pieces.take(k)), k, not_blank(pieces), |i: int| trim(pieces[i])),
    decreases k,
{
    if k > 0 {
        law_blank_pieces_are_left_out(pieces, k - 1);
        assert(pieces.take(k).drop_last() =~= pieces.take(k - 1));
        assert(pieces.take(k).last() == pieces[k - 1]);
        lemma_picked_grows(
            non_blank(pieces.take(k - 1)),
            k - 1,
            not_blank(pieces),
            |i: int| trim(pieces[i]),
        );
    }
}

/// Whether a character stands in one of the stretches of a text.
pub open spec fn lies_in(spans: Seq<(int, int)>, i: int) -> bool {
    exists|w: int| 0 <= w < spans.len() && (#[trigger] spans[w]).0 <= i < spans[w].1
}

/// The words of a text are its stretches without comma and white space: each
/// such stretch is one word, whole, and they come in their order.
pub proof fn law_words(s: Seq<char>) -> (spans: Seq<(int, int)>)
    ensures
        spans.len() == words(s).0.len(),
        forall|w: int|
            0 <= w < spans.len() ==> 0 <= (#[trigger] spans[w]).0 < spans[w].1 <= s.len()
                && words(s).0[w] == s.subrange(spans[w].0, spans[w].1),
        forall|w: int, i: int|
            0 <= w < spans.len() && (#[trigger] spans[w]).0 <= i < spans[w].1 ==> (#[trigger] s[i])
                != ',' && !is_space(s[i]),
        forall|v: int, w: int|
            0 <= v < w < spans.len() ==> (#[trigger] spans[v]).1 < (#[trigger] spans[w]).0,
        forall|i: int|
            0 <= i < s.len() && #[trigger] s[i] != ',' && !is_space(s[i]) ==> lies_in(spans, i),
        words(s).1 <==> spans.len() > 0 && spans.last().1 == s.len(),
        words(s).1 <==> s.len() > 0 && s.last() != ',' && !is_space(s.last()),
    decreases s.len(),
{
    if s.len() == 0 {
        Seq::empty()
    } else {
        let n = s.len() - 1;
        let front = s.drop_last();
        let was = law_words(front);
        let (before, open) = words(front);
        let c = s.last();
        if is_gap(c) {
            assert forall|w: int| 0 <= w < was.len() implies 0 <= (#[trigger] was[w]).0 < was[w].1
                <= s.len() && words(s).0[w] == s.subrange(was[w].0, was[w].1) by {
                assert(front.subrange(was[w].0, was[w].1) =~= s.subrange(was[w].0, was[w].1));
            }
            assert forall|i: int|
                0 <= i < s.len() && #[trigger] s[i] != ',' && !is_space(s[i]) implies lies_in(
                was,
                i,
            ) by {
                assert(front[i] == s[i]);
            }
            assert forall|w: int, i: int|
                0 <= w < was.len() && (#[trigger] was[w]).0 <= i < was[w].1 implies (
            #[trigger] s[i]) != ',' && !is_space(s[i]) by {
                assert(front[i] == s[i]);
            }
            was
        } else if open {
            let last = was.len() - 1;
            let spans = was.update(last, (was[last].0, n + 1));
            assert forall|w: int| 0 <= w < spans.len() implies 0 <= (#[trigger] spans[w]).0
                < spans[w].1 <= s.len() && words(s).0[w] == s.subrange(spans[w].0, spans[w].1) by {
                assert(front.subrange(was[w].0, was[w].1) =~= s.subrange(was[w].0, was[w].1));
                if w == last {
                    assert(before.last().push(c) =~= s.subrange(spans[w].0, spans[w].1));
                }
            }
            assert forall|w: int, i: int|
                0 <= w < spans.len() && (#[trigger] spans[w]).0 <= i < spans[w].1 implies (
            #[trigger] s[i]) != ',' && !is_space(s[i]) by {
                if i < n {
                    assert(was[w].0 <= i < was[w].1);
                    assert(front[i] == s[i]);
                }
            }
            assert forall|v: int, w: int| 0 <= v < w < spans.len() implies (#[trigger] spans[v]).1
                < (#[trigger] spans[w]).0 by {
                assert(was[v].1 < was[w].0);
            }
            assert forall|i: int|
                0 <= i < s.len() && #[trigger] s[i] != ',' && !is_space(s[i]) implies lies_in(
                spans,
                i,
            ) by {
                if i < n {
                    assert(front[i] == s[i]);
                    assert(lies_in(was, i));
                    let w = choose|w: int|
                        0 <= w < was.len() && (#[trigger] was[w]).0 <= i < was[w].1;
                    assert(spans[w].0 <= i < spans[w].1);
                } else {
                    assert(spans[last].0 <= i < spans[last].1);
                }
            }
            spans
        } else {
            let spans = was.push((n, n + 1));
            assert(seq![c] =~= s.subrange(n, n + 1));
            assert forall|w: int| 0 <= w < spans.len() implies 0 <= (#[trigger] spans[w]).0
                < spans[w].1 <= s.len() && words(s).0[w] == s.subrange(spans[w].0, spans[w].1) by {
                if w < was.len() {
                    assert(spans[w] == was[w]);
                    assert(front.subrange(was[w].0, was[w].1) =~= s.subrange(was[w].0, was[w].1));
                }
            }
            assert forall|w: int, i: int|
                0 <= w < spans.len() && (#[trigger] spans[w]).0 <= i < spans[w].1 implies (
            #[trigger] s[i]) != ',' && !is_space(s[i]) by {
                if i < n {
                    assert(was[w].0 <= i < was[w].1);
                    assert(front[i] == s[i]);
                }
            }
            assert forall|v: int, w: int| 0 <= v < w < spans.len() implies (#[trigger] spans[v]).1
                < (#[trigger] spans[w]).0 by {
                assert(was[v].0 < was[v].1 <= n);
                if w < was.len() {
                    assert(was[v].1 < was[w].0);
                } else if was[v].1 == n {
                    assert(front[n - 1] != ',' && !is_space(front[n - 1]));
                }
            }
            assert forall|i: int|
                0 <= i < s.len() && #[trigger] s[i] != ',' && !is_space(s[i]) implies lies_in(
                spans,
                i,
            ) by {
                if i < n {
                    assert(front[i] == s[i]);
                    assert(lies_in(was, i));
                    let w = choose|w: int|
                        0 <= w < was.len() && (#[trigger] was[w]).0 <= i < was[w].1;
                    assert(spans[w].0 <= i < spans[w].1);
                } else {
                    assert(spans[was.len() as int].0 <= i < spans[was.len() as int].1);
                }
            }
            spans
        }
    }
}

/// A sign before a decimal text gives the number, or its negative.
pub proof fn law_signed_decimal_reads_back(n: nat)
    ensures
        integer(seq!['-'] + decimal(n)) == Some(-(n as int)),
        integer(seq!['+'] + decimal(n)) == Some(n as int),
        n <= i64::MAX ==> integer64(decimal(n)) == Some(n as i64),
        n > i64::MAX ==> integer64(decimal(n)) is None,
{
    law_decimal_reads_back(n);
    assert((seq!['-'] + decimal(n)).drop_first() =~= decimal(n));
    assert((seq!['+'] + decimal(n)).drop_first() =~= decimal(n));
}

/// A number with leading zeros reads back as the number, and has at least four
/// digits, no more than four where it is below ten thousand.
pub proof fn law_leading_zeros_read_back(n: nat)
    ensures
        integer(decimal4(n)) == Some(n as int),
        decimal4(n).len() >= 4,
        n < 10000 ==> decimal4(n).len() == 4,
{
    law_decimal_reads_back(n);
    reveal_with_fuel(decimal, 5);
    lemma_digits_grow(n);
    let d = decimal(n);
    if n < 10 {
        lemma_zero_before(d);
        lemma_zero_before(seq!['0'] + d);
        lemma_zero_before(seq!['0'] + (seq!['0'] + d));
        assert(seq!['0'] + (seq!['0'] + (seq!['0'] + d)) =~= decimal4(n));
    } else if n < 100 {
        lemma_zero_before(d);
        lemma_zero_before(seq!['0'] + d);
        assert(seq!['0'] + (seq!['0'] + d) =~= decimal4(n));
    } else if n < 1000 {
        lemma_zero_before(d);
    }
    assert(is_digit(decimal4(n)[0]));
}

proof fn lemma_digits_grow(n: nat)
    ensures
        n >= 1000 ==> decimal(n).len() >= 4,
        n >= 100 ==> decimal(n).len() >= 3,
        n >= 10 ==> decimal(n).len() >= 2,
        decimal(n).len() >= 1,
    decreases n,
{
    if n >= 10 {
        lemma_digits_grow(n / 10);
    }
}

proof fn lemma_zero_before(s: Seq<char>)
    requires
        s.len() > 0,
        all_digits(s),
    ensures
        all_digits(seq!['0'] + s),
        digits_value(seq!['0'] + s) == digits_value(s),
    decreases s.len(),
{
    let t = seq!['0'] + s;
    assert forall|i: int| 0 <= i < t.len() implies is_digit(#[trigger] t[i]) by {
        if i > 0 {
            assert(t[i] == s[i - 1]);
        }
    }
    if s.len() == 1 {
        assert(t.drop_last() =~= seq!['0']);
        assert(seq!['0'].drop_last() =~= Seq::<char>::empty());
        assert(s.drop_last() =~= Seq::<char>::empty());
        reveal_with_fuel(digits_value, 3);
    } else {
        assert(t.drop_last() =~= seq!['0'] + s.drop_last());
        assert forall|i: int| 0 <= i < s.drop_last().len() implies is_digit(
            #[trigger] s.drop_last()[i],
        ) by {
            assert(s.drop_last()[i] == s[i]);
        }
        lemma_zero_before(s.drop_last());
        assert(t.last() == s.last());
    }
}

/// Upper and lower case of ASCII letters undo each other, and change nothing
/// else.
pub proof fn law_cases_undo_each_other(c: char)
    ensures
        'a' <= c && c <= 'z' ==> 'A' <= ascii_upper(c) && ascii_upper(c) <= 'Z' && ascii_lower(
            ascii_upper(c),
        ) == c,
        'A' <= c && c <= 'Z' ==> 'a' <= ascii_lower(c) && ascii_lower(c) <= 'z' && ascii_upper(
            ascii_lower(c),
        ) == c,
        !('a' <= c && c <= 'z') ==> ascii_upper(c) == c,
        !('A' <= c && c <= 'Z') ==> ascii_lower(c) == c,
{
}

} // verus!
