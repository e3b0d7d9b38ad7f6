//! Numeric literals: which words spell a 64-bit signed integer, which spell a
//! decimal floating-point number, and how an integer is written back as text.
//!
//! Both kinds are spelled as the standard library reads them with
//! `str::parse`. An integer is an optional sign and one or more digits, with
//! a value in range. A floating-point literal follows this grammar, in which
//! the three names and the `e` may be in either case:
//!
//! ```text
//! Float  ::= Sign? ( "inf" | "infinity" | "nan" | Number )
//! Number ::= ( Digit+ | Digit+ "." Digit* | Digit* "." Digit+ ) Exp?
//! Exp    ::= "e" Sign? Digit+
//! Sign   ::= "+" | "-"
//! Digit  ::= "0" ... "9"
//! ```
//!
//! Only the spelling is decided here. What number a floating-point literal
//! stands for is left to the caller, who has the spelling.

use vstd::prelude::*;
use vstd::std_specs::iter::IteratorSpec;

verus! {

/// An ASCII decimal digit.
pub open spec fn is_digit(c: char) -> bool {
    '0' <= c && c <= '9'
}

/// A leading plus or minus.
pub open spec fn is_sign(c: char) -> bool {
    c == '+' || c == '-'
}

/// The number a digit stands for.
pub open spec fn digit_value(c: char) -> int {
    c as int - '0' as int
}

/// Every character of `s` is a digit.
pub open spec fn all_digits(s: Seq<char>) -> bool {
    forall|i: int| 0 <= i < s.len() ==> is_digit(#[trigger] s[i])
}

/// The number written by a run of digits, most significant first.
pub open spec fn digits_value(s: Seq<char>) -> int
    decreases s.len(),
{
    if s.len() == 0 {
        0
    } else {
        10 * digits_value(s.drop_last()) + digit_value(s.last())
    }
}

/// Where the part after an optional sign begins.
pub open spec fn sign_len(word: Seq<char>) -> int {
    if word.len() > 0 && is_sign(word[0]) {
        1
    } else {
        0
    }
}

/// The word without its optional sign.
pub open spec fn unsigned_part(word: Seq<char>) -> Seq<char> {
    word.subrange(sign_len(word), word.len() as int)
}

/// The word starts with a minus.
pub open spec fn is_negative(word: Seq<char>) -> bool {
    word.len() > 0 && word[0] == '-'
}

/// The number a signed run of digits stands for, before any range check.
pub open spec fn signed_value(word: Seq<char>) -> int {
    if is_negative(word) {
        -digits_value(unsigned_part(word))
    } else {
        digits_value(unsigned_part(word))
    }
}

/// The integer a word spells, if it spells one: an optional sign, then one or
/// more digits and nothing else, with a value that fits in 64 signed bits.
pub open spec fn integer_of(word: Seq<char>) -> Option<i64> {
    if unsigned_part(word).len() > 0 && all_digits(unsigned_part(word)) && i64::MIN
        <= signed_value(word) <= i64::MAX {
        Some(signed_value(word) as i64)
    } else {
        None
    }
}

/// Adding digits at the end never makes the written number smaller.
pub proof fn lemma_digits_value_prefix(s: Seq<char>, k: int)
    requires
        all_digits(s),
        0 <= k <= s.len(),
    ensures
        0 <= digits_value(s.take(k)) <= digits_value(s),
    decreases s.len(),
{
    if s.len() == 0 {
        assert(s.take(k) =~= s);
    } else if k == s.len() {
        assert(s.take(k) =~= s);
        lemma_digits_value_prefix(s.drop_last(), k - 1);
        assert(is_digit(s.last()));
    } else {
        lemma_digits_value_prefix(s.drop_last(), k);
        assert(s.drop_last().take(k) =~= s.take(k));
        assert(is_digit(s.last()));
    }
}

/// Reads a word as a 64-bit signed integer.
pub fn parse_integer(word: &Vec<char>) -> (value: Option<i64>)
    ensures
        value == integer_of(word@),
{
    let n: usize = word.len();
    let mut start: usize = 0;
    let mut negative: bool = false;
    if n > 0 && (word[0] == '-' || word[0] == '+') {
        negative = word[0] == '-';
        start = 1;
    }
    if start == n {
        return None;
    }
    let ghost digits = unsigned_part(word@);
    let mut magnitude: i128 = 0;
    let mut i: usize = start;
    while i < n
        invariant
            n == word.len(),
            start == sign_len(word@),
            negative == is_negative(word@),
            digits == unsigned_part(word@),
            start <= i <= n,
            all_digits(digits.take(i - start)),
            magnitude == digits_value(digits.take(i - start)),
            0 <= magnitude <= 0x8000_0000_0000_0000,
        decreases n - i,
    {
        let c: char = word[i];
        if !('0' <= c && c <= '9') {
            assert(!is_digit(digits[i - start]));
            return None;
        }
        let d: i128 = (c as u32 - '0' as u32) as i128;
        let ghost before = digits.take(i - start);
        let ghost after = digits.take(i + 1 - start);
        assert(after.drop_last() =~= before);
        assert(after.last() == c);
        assert forall|j: int| 0 <= j < after.len() implies is_digit(#[trigger] after[j]) by {
            if j < before.len() {
                assert(after[j] == before[j]);
            }
        }
        magnitude = magnitude * 10 + d;
        if magnitude > 0x8000_0000_0000_0000 {
            proof {
                if all_digits(digits) {
                    lemma_digits_value_prefix(digits, i + 1 - start);
                }
            }
            return None;
        }
        i += 1;
    }
    assert(digits.take(i - start) =~= digits);
    if negative {
        Some((-magnitude) as i64)
    } else if magnitude <= 0x7fff_ffff_ffff_ffff {
        Some(magnitude as i64)
    } else {
        None
    }
}

/// Where the run of digits that starts at `from` ends.
pub open spec fn digit_run(s: Seq<char>, from: int) -> int
    decreases s.len() - from,
{
    if 0 <= from < s.len() && is_digit(s[from]) {
        digit_run(s, from + 1)
    } else {
        from
    }
}

/// `c` is the lower-case ASCII letter `letter` or its upper-case form.
pub open spec fn is_letter(c: char, letter: char) -> bool {
    c == letter || c as int + 32 == letter as int
}

/// From `from` to its end, `s` spells `name`, in any mix of upper and lower case.
pub open spec fn spells(s: Seq<char>, from: int, name: Seq<char>) -> bool {
    &&& s.len() - from == name.len()
    &&& forall|i: int| 0 <= i < name.len() ==> is_letter(#[trigger] s[from + i], name[i])
}

/// From `at` to its end, `s` is an exponent: `e` or `E`, an optional sign,
/// then one or more digits.
pub open spec fn is_exponent(s: Seq<char>, at: int) -> bool {
    let digits = if at + 1 < s.len() && is_sign(s[at + 1]) {
        at + 2
    } else {
        at + 1
    };
    &&& 0 <= at < s.len()
    &&& (s[at] == 'e' || s[at] == 'E')
    &&& digits < s.len()
    &&& digit_run(s, digits) == s.len()
}

/// From `from` to its end, `s` is a decimal number: digits with an optional
/// point among them, before it or after it, at least one digit in all, and
/// an optional exponent.
pub open spec fn is_decimal(s: Seq<char>, from: int) -> bool {
    let point = digit_run(s, from);
    let has_point = point < s.len() && s[point] == '.';
    let end = if has_point {
        digit_run(s, point + 1)
    } else {
        point
    };
    let digit_count = if has_point {
        end - from - 1
    } else {
        end - from
    };
    &&& digit_count > 0
    &&& (end == s.len() || is_exponent(s, end))
}

/// The word spells a floating-point number: an optional sign, then either a
/// decimal number or one of the names `inf`, `infinity` and `nan`.
pub open spec fn is_float_literal(word: Seq<char>) -> bool {
    let from = sign_len(word);
    ||| is_decimal(word, from)
    ||| spells(word, from, "inf"@)
    ||| spells(word, from, "infinity"@)
    ||| spells(word, from, "nan"@)
}

/// The end of the run of digits that starts at `from`.
fn skip_digits(word: &Vec<char>, from: usize) -> (end: usize)
    requires
        from <= word.len(),
    ensures
        end == digit_run(word@, from as int),
        from <= end <= word.len(),
{
    let n: usize = word.len();
    let mut i: usize = from;
    while i < n && '0' <= word[i] && word[i] <= '9'
        invariant
            n == word.len(),
            from <= i <= n,
            digit_run(word@, i as int) == digit_run(word@, from as int),
        decreases n - i,
    {
        i += 1;
    }
    i
}

/// Tells whether `c` is `letter` in either case; `letter` is a lower-case ASCII letter.
fn letter_matches(c: char, letter: char) -> (yes: bool)
    requires
        'a' <= letter <= 'z',
    ensures
        yes == is_letter(c, letter),
{
    c == letter || c as u32 + 32 == letter as u32
}

/// Tells whether the rest of the word from `from` spells `name`, whatever the case.
fn spells_name(word: &Vec<char>, from: usize, name: &str) -> (yes: bool)
    requires
        from <= word.len(),
        forall|i: int| 0 <= i < name@.len() ==> 'a' <= #[trigger] name@[i] <= 'z',
    ensures
        yes == spells(word@, from as int, name@),
{
    let n: usize = word.len();
    let mut letters = name.chars();
    let mut i: usize = from;
    loop
        invariant
            n == word.len(),
            from <= i <= n,
            i - from <= name@.len(),
            letters.remaining() == name@.skip(i - from),
            forall|k: int| 0 <= k < name@.len() ==> 'a' <= #[trigger] name@[k] <= 'z',
            forall|k: int| 0 <= k < i - from ==> is_letter(#[trigger] word@[from + k], name@[k]),
        decreases n - i,
    {
        match letters.next() {
            None => {
                return i == n;
            },
            Some(letter) => {
                assert(letter == name@[i - from]);
                if i == n {
                    return false;
                }
                if !letter_matches(word[i], letter) {
                    assert(!is_letter(word@[from + (i - from)], name@[i - from]));
                    return false;
                }
                assert(name@.skip(i - from).drop_first() =~= name@.skip(i + 1 - from));
                i += 1;
            },
        }
    }
}

/// Tells whether a word spells a floating-point number.
pub fn is_float_word(word: &Vec<char>) -> (yes: bool)
    ensures
        yes == is_float_literal(word@),
{
    let n: usize = word.len();
    let from: usize = if n > 0 && (word[0] == '-' || word[0] == '+') {
        1
    } else {
        0
    };
    proof {
        reveal_strlit("inf");
        reveal_strlit("infinity");
        reveal_strlit("nan");
    }
    if spells_name(word, from, "inf") || spells_name(word, from, "infinity") || spells_name(
        word,
        from,
        "nan",
    ) {
        return true;
    }
    let point: usize = skip_digits(word, from);
    let has_point: bool = point < n && word[point] == '.';
    let end: usize = if has_point {
        skip_digits(word, point + 1)
    } else {
        point
    };
    let digit_count: usize = if has_point {
        end - from - 1
    } else {
        end - from
    };
    if digit_count == 0 {
        return false;
    }
    if end == n {
        return true;
    }
    if !(word[end] == 'e' || word[end] == 'E') {
        return false;
    }
    let digits: usize = if end + 1 < n && (word[end + 1] == '-' || word[end + 1] == '+') {
        end + 2
    } else {
        end + 1
    };
    digits < n && skip_digits(word, digits) == n
}

/// The character that writes a digit's value.
pub open spec fn digit_char(d: int) -> char {
    (d + '0' as int) as char
}

/// A natural number in decimal, without leading zeros.
pub open spec fn digits_text(n: nat) -> Seq<char>
    decreases n,
{
    if n < 10 {
        seq![digit_char(n as int)]
    } else {
        digits_text(n / 10).push(digit_char((n % 10) as int))
    }
}

/// An integer in decimal: a minus when it is negative, then its magnitude.
pub open spec fn decimal_text(n: int) -> Seq<char> {
    if n < 0 {
        seq!['-'] + digits_text((-n) as nat)
    } else {
        digits_text(n as nat)
    }
}

/// Writes an integer in decimal.
pub fn integer_text(n: i64) -> (s: String)
    ensures
        s@ == decimal_text(n as int),
{
    let magnitude: u64 = if n < 0 {
        (-(n as i128)) as u64
    } else {
        n as u64
    };
    // The digits, least significant first.
    let mut low: Vec<char> = Vec::new();
    let mut rest: u64 = magnitude;
    loop
        invariant_except_break
            low@.len() == 0 ==> rest == magnitude,
            low@.len() > 0 ==> rest > 0,
            low@.len() > 0 ==> digits_text(magnitude as nat) == digits_text(rest as nat)
                + low@.reverse(),
        ensures
            digits_text(magnitude as nat) == low@.reverse(),
        decreases rest,
    {
        let digit: u8 = (rest % 10) as u8;
        let c: char = (digit + 48u8) as char;
        assert(c == digit_char((rest % 10) as int));
        let ghost before = low@;
        assert(digits_text(magnitude as nat) =~= digits_text(rest as nat) + before.reverse());
        low.push(c);
        assert(low@.reverse() =~= seq![c] + before.reverse());
        if rest < 10 {
            assert(digits_text(magnitude as nat) =~= low@.reverse());
        } else {
            assert(digits_text(magnitude as nat) =~= digits_text((rest / 10) as nat)
                + low@.reverse());
        }
        rest = rest / 10;
        if rest == 0 {
            break;
        }
    }
    let mut s = String::new();
    if n < 0 {
        s.push('-');
    }
    let ghost sign = s@;
    let mut i: usize = low.len();
    while i > 0
        invariant
            i <= low.len(),
            s@ == sign + low@.reverse().take(low.len() - i),
        decreases i,
    {
        i -= 1;
        s.push(low[i]);
        assert(low@.reverse().take(low.len() - i - 1).push(low@[i as int]) =~= low@.reverse().take(
            low.len() - i,
        ));
    }
    assert(low@.reverse().take(low.len() as int) =~= low@.reverse());
    s
}

/// The decimal form of a natural number is made of digits, at least one, and
/// they write that number.
pub proof fn lemma_digits_text(n: nat)
    ensures
        digits_text(n).len() > 0,
        all_digits(digits_text(n)),
        digits_value(digits_text(n)) == n,
    decreases n,
{
    let text = digits_text(n);
    if n < 10 {
        assert(is_digit(digit_char(n as int)));
        assert(text.drop_last() =~= Seq::<char>::empty());
        assert(digits_value(text) == 10 * digits_value(text.drop_last()) + digit_value(
            text.last(),
        ));
    } else {
        lemma_digits_text(n / 10);
        assert(is_digit(digit_char((n % 10) as int)));
        assert(text.drop_last() =~= digits_text(n / 10));
        assert(digits_value(text) == 10 * digits_value(text.drop_last()) + digit_value(
            text.last(),
        ));
    }
}

/// An integer that was written in decimal reads back as itself.
pub proof fn lemma_decimal_text_reads_back(n: i64)
    ensures
        integer_of(decimal_text(n as int)) == Some(n),
{
    let text = decimal_text(n as int);
    if n < 0 {
        let digits = digits_text((-n) as nat);
        lemma_digits_text((-n) as nat);
        assert(text[0] == '-');
        assert(unsigned_part(text) =~= digits);
    } else {
        lemma_digits_text(n as nat);
        assert(is_digit(text[0]));
        assert(unsigned_part(text) =~= text);
    }
}

} // verus!
