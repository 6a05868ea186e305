//! The fields of a table that are not plain text: numbers, flags and
//! decimals.
//!
//! A number is written in decimal digits. It is read from decimal digits,
//! or from hexadecimal digits after `0x`; an optional `+` may precede the
//! digits, and leading zeros are accepted. A flag is the number 0 or 1. A
//! decimal is the text of a number with a fraction or an exponent, as the
//! standard library reads one for a binary64 value; here it is told from
//! other text, and not turned into a value.

use vstd::prelude::*;
use vstd::std_specs::iter::IteratorSpec;
use vstd::string::StringExecFns;

verus! {

/// `c` is one of the ten decimal digits.
pub open spec fn is_digit(c: char) -> bool {
    48 <= c as int <= 57
}

/// The number that the digit `c` stands for: `c` is a decimal digit or,
/// where `hex` holds, one of the letters `a` to `f` in either case.
pub open spec fn digit_in(c: char, hex: bool) -> Option<nat> {
    let n = c as int;
    if 48 <= n <= 57 {
        Some((n - 48) as nat)
    } else if hex && 97 <= n <= 102 {
        Some((n - 87) as nat)
    } else if hex && 65 <= n <= 70 {
        Some((n - 55) as nat)
    } else {
        None
    }
}

/// The digit that stands for `d`, a number below ten.
pub open spec fn digit_char(d: nat) -> char {
    (d + 48) as char
}

/// Every character of `s` is a decimal digit.
pub open spec fn all_digits(s: Seq<char>) -> bool {
    forall|i: int| 0 <= i < s.len() ==> is_digit(#[trigger] s[i])
}

/// Every character of `s` is a digit: a decimal one or, where `hex` holds, a
/// hexadecimal one.
pub open spec fn digits_in(s: Seq<char>, hex: bool) -> bool {
    forall|i: int| 0 <= i < s.len() ==> digit_in(#[trigger] s[i], hex) is Some
}

/// The base of the digits: sixteen where `hex` holds, else ten.
pub open spec fn base(hex: bool) -> nat {
    if hex {
        16
    } else {
        10
    }
}

/// The number that the digits of `s` write, the last digit counting least.
pub open spec fn value_in(s: Seq<char>, hex: bool) -> nat
    decreases s.len(),
{
    if s.len() == 0 {
        0
    } else {
        value_in(s.drop_last(), hex) * base(hex) + digit_in(s.last(), hex).unwrap()
    }
}

/// `s` without the `+` that it may start with.
pub open spec fn unsigned(s: Seq<char>) -> Seq<char> {
    if s.len() > 0 && s[0] == '+' {
        s.drop_first()
    } else {
        s
    }
}

/// `s` starts with `0x`: hexadecimal digits follow.
pub open spec fn is_hex(s: Seq<char>) -> bool {
    s.len() >= 2 && s[0] == '0' && s[1] == 'x'
}

/// The digits of `s`: what follows the `0x` and the `+` that it may start
/// with.
pub open spec fn digits_of(s: Seq<char>) -> Seq<char> {
    if is_hex(s) {
        unsigned(s.skip(2))
    } else {
        unsigned(s)
    }
}

/// The number that `s` is read as, if it is read as one: `s` is one or more
/// digits, decimal ones or hexadecimal ones after `0x`; a `+` may stand
/// before the digits; and their value fits 32 bits.
pub open spec fn parsed_number(s: Seq<char>) -> Option<u32> {
    let digits = digits_of(s);
    if digits.len() > 0 && digits_in(digits, is_hex(s)) && value_in(digits, is_hex(s)) <= u32::MAX {
        Some(value_in(digits, is_hex(s)) as u32)
    } else {
        None
    }
}

/// The decimal digits of `n`, without leading zeros.
pub open spec fn number_text(n: nat) -> Seq<char>
    decreases n,
{
    if n < 10 {
        seq![digit_char(n)]
    } else {
        number_text(n / 10).push(digit_char(n % 10))
    }
}

/// The length of the longest run of decimal digits that `s` starts with.
pub open spec fn leading_digits(s: Seq<char>) -> nat
    decreases s.len(),
{
    if s.len() > 0 && is_digit(s[0]) {
        1 + leading_digits(s.drop_first())
    } else {
        0
    }
}

/// `s` without the `+` or `-` that it may start with.
pub open spec fn without_sign(s: Seq<char>) -> Seq<char> {
    if s.len() > 0 && (s[0] == '+' || s[0] == '-') {
        s.drop_first()
    } else {
        s
    }
}

/// `c` is the lower-case letter `letter`, or the same letter in upper case.
pub open spec fn is_letter(c: char, letter: char) -> bool {
    c == letter || c as int == letter as int - 32
}

/// `s` is `word`, a word in lower-case letters, with each letter in either
/// case.
pub open spec fn spells(s: Seq<char>, word: Seq<char>) -> bool {
    &&& s.len() == word.len()
    &&& forall|i: int| 0 <= i < s.len() ==> is_letter(#[trigger] s[i], word[i])
}

/// `s` is an exponent: the letter `e`, an optional sign, one or more digits.
pub open spec fn is_exponent(s: Seq<char>) -> bool {
    &&& s.len() > 0
    &&& is_letter(s[0], 'e')
    &&& without_sign(s.drop_first()).len() > 0
    &&& all_digits(without_sign(s.drop_first()))
}

/// `s` is digits, then, if at all, a point and digits, with at least one
/// digit before or after the point; an exponent may follow.
pub open spec fn is_plain_decimal(s: Seq<char>) -> bool {
    let whole = leading_digits(s);
    let after = s.skip(whole as int);
    let pointed = after.len() > 0 && after[0] == '.';
    let fraction = if pointed {
        leading_digits(after.drop_first())
    } else {
        0
    };
    let rest = if pointed {
        after.drop_first().skip(fraction as int)
    } else {
        after
    };
    whole + fraction > 0 && (rest.len() == 0 || is_exponent(rest))
}

/// `s` is a decimal: after an optional sign, either one of the words `inf`,
/// `infinity` and `nan` in letters of either case, or digits with an
/// optional point and an optional exponent.
pub open spec fn is_decimal(s: Seq<char>) -> bool {
    let body = without_sign(s);
    ||| spells(body, seq!['i', 'n', 'f'])
    ||| spells(body, seq!['i', 'n', 'f', 'i', 'n', 'i', 't', 'y'])
    ||| spells(body, seq!['n', 'a', 'n'])
    ||| is_plain_decimal(body)
}

/// The flag that `s` is read as, if it is read as one: the number 0 for
/// `false`, the number 1 for `true`.
pub open spec fn parsed_flag(s: Seq<char>) -> Option<bool> {
    match parsed_number(s) {
        Some(n) => if n == 0 {
            Some(false)
        } else if n == 1 {
            Some(true)
        } else {
            None
        },
        None => None,
    }
}

/// The text of a flag: `0` for `false`, `1` for `true`.
pub open spec fn flag_text(flag: bool) -> Seq<char> {
    if flag {
        seq!['1']
    } else {
        seq!['0']
    }
}

/// The value of some digits is at least the value of any of their prefixes.
proof fn lemma_value_grows(s: Seq<char>, hex: bool, n: int)
    requires
        0 <= n <= s.len(),
    ensures
        value_in(s.take(n), hex) <= value_in(s, hex),
    decreases s.len(),
{
    if n == s.len() {
        assert(s.take(n) =~= s);
    } else {
        assert(s.drop_last().take(n) =~= s.take(n));
        lemma_value_grows(s.drop_last(), hex, n);
        assert(value_in(s.drop_last(), hex) * base(hex) >= value_in(s.drop_last(), hex)) by (nonlinear_arith)
            requires
                base(hex) >= 1,
        ;
    }
}

/// The text of a number consists of decimal digits, at least one, and writes
/// that number.
pub proof fn lemma_number_text(n: nat)
    ensures
        number_text(n).len() > 0,
        digits_in(number_text(n), false),
        value_in(number_text(n), false) == n,
    decreases n,
{
    if n < 10 {
        let s = number_text(n);
        assert(s.drop_last() =~= Seq::<char>::empty());
        assert(value_in(s.drop_last(), false) == 0);
    } else {
        lemma_number_text(n / 10);
        let s = number_text(n);
        assert(s.drop_last() =~= number_text(n / 10));
        assert(s.last() == digit_char(n % 10));
    }
}

/// A number that was written is read back as it was.
pub proof fn lemma_number_round_trip(n: u32)
    ensures
        parsed_number(number_text(n as nat)) == Some(n),
{
    lemma_number_text(n as nat);
    let s = number_text(n as nat);
    assert(digit_in(s[0], false) is Some);
    if s.len() >= 2 {
        assert(digit_in(s[1], false) is Some);
    }
}

/// A flag that was written is read back as it was: `false` is written as
/// `0`, `true` as `1`.
pub proof fn lemma_flag_round_trip(flag: bool)
    ensures
        parsed_flag(flag_text(flag)) == Some(flag),
        flag_text(false) == seq!['0'],
        flag_text(true) == seq!['1'],
{
    let s = flag_text(flag);
    assert(digits_of(s) == s);
    assert(s.drop_last() =~= Seq::<char>::empty());
    assert(value_in(s.drop_last(), false) == 0);
    assert(digit_in(s[0], false) is Some);
}

/// A text is read as a flag just where it is read as the number 0 or the
/// number 1: no other value is a flag.
pub proof fn lemma_flag_is_zero_or_one(text: Seq<char>)
    ensures
        parsed_flag(text) == Some(false) <==> parsed_number(text) == Some(0u32),
        parsed_flag(text) == Some(true) <==> parsed_number(text) == Some(1u32),
        parsed_flag(text) is None <==> (parsed_number(text) != Some(0u32) && parsed_number(text)
            != Some(1u32)),
{
}

/// The number that the digit `c` stands for, if it is a digit.
fn digit(c: char, hex: bool) -> (r: Option<u32>)
    ensures
        match r {
            Some(d) => digit_in(c, hex) == Some(d as nat) && d < 16,
            None => digit_in(c, hex) is None,
        },
{
    if c >= '0' && c <= '9' {
        Some(c as u32 - 48)
    } else if hex && c >= 'a' && c <= 'f' {
        Some(c as u32 - 87)
    } else if hex && c >= 'A' && c <= 'F' {
        Some(c as u32 - 55)
    } else {
        None
    }
}

/// Reads a number. `None` is returned where `text` is not a number.
pub fn parse_number(text: &str) -> (r: Option<u32>)
    ensures
        r == parsed_number(text@),
{
    let chars = characters(text);
    let length = chars.len();
    let hex = length >= 2 && chars[0] == '0' && chars[1] == 'x';
    let marked: usize = if hex {
        2
    } else {
        0
    };
    let start = if marked < length && chars[marked] == '+' {
        marked + 1
    } else {
        marked
    };
    let ghost digits = digits_of(text@);
    proof {
        if marked < length {
            assert(text@.skip(marked as int)[0] == chars[marked as int]);
        }
        assert(text@.skip(0) =~= text@);
        assert(digits =~= chars@.skip(start as int));
        assert(digits.take(0) =~= Seq::<char>::empty());
    }
    if start == length {
        return None;
    }
    let mut value: u64 = 0;
    let mut i: usize = start;
    while i < length
        invariant
            start <= i <= length,
            length == chars.len(),
            digits == chars@.skip(start as int),
            digits == digits_of(text@),
            hex == is_hex(text@),
            digits_in(digits.take(i - start), hex),
            value == value_in(digits.take(i - start), hex),
            value <= u32::MAX,
        decreases length - i,
    {
        let ghost n = i - start;
        proof {
            assert(digits[n] == chars[i as int]);
            assert(digits.take(n + 1).drop_last() =~= digits.take(n));
            assert(digits.take(n + 1).last() == chars[i as int]);
        }
        match digit(chars[i], hex) {
            None => {
                return None;
            },
            Some(d) => {
                proof {
                    assert forall|k: int| 0 <= k < n + 1 implies digit_in(
                        #[trigger] digits.take(n + 1)[k],
                        hex,
                    ) is Some by {
                        if k < n {
                            assert(digits.take(n)[k] == digits[k]);
                        }
                    }
                }
                let base: u64 = if hex {
                    16
                } else {
                    10
                };
                value = value * base + d as u64;
                if value > u32::MAX as u64 {
                    proof {
                        lemma_value_grows(digits, hex, n + 1);
                    }
                    return None;
                }
            },
        }
        i = i + 1;
    }
    proof {
        assert(digits.take(length - start) =~= digits);
    }
    Some(value as u32)
}

/// The leading digits of a text are digits, and what follows them does not
/// start with one.
proof fn lemma_leading_digits(s: Seq<char>)
    ensures
        leading_digits(s) <= s.len(),
        all_digits(s.take(leading_digits(s) as int)),
        leading_digits(s) < s.len() ==> !is_digit(s[leading_digits(s) as int]),
        all_digits(s) <==> leading_digits(s) == s.len(),
    decreases s.len(),
{
    if s.len() > 0 && is_digit(s[0]) {
        let rest = s.drop_first();
        lemma_leading_digits(rest);
        let n = leading_digits(rest) as int;
        assert forall|i: int| 0 <= i < n + 1 implies is_digit(#[trigger] s.take(n + 1)[i]) by {
            if i > 0 {
                assert(rest.take(n)[i - 1] == s[i]);
            }
        }
        if all_digits(s) {
            assert forall|i: int| 0 <= i < rest.len() implies is_digit(#[trigger] rest[i]) by {
                assert(rest[i] == s[i + 1]);
            }
        }
        if n == rest.len() {
            assert(rest.take(n) =~= rest);
            assert forall|i: int| 0 <= i < s.len() implies is_digit(#[trigger] s[i]) by {
                if i > 0 {
                    assert(rest[i - 1] == s[i]);
                }
            }
        }
    } else {
        assert(s.take(0) =~= Seq::<char>::empty());
        if s.len() > 0 {
            assert(!all_digits(s));
        }
    }
}

/// The characters of a text.
fn characters(text: &str) -> (chars: Vec<char>)
    ensures
        chars@ == text@,
{
    broadcast use vstd::string::group_string_axioms;

    let mut chars: Vec<char> = Vec::new();
    let mut rest = text.chars();
    proof {
        assert(text@.skip(0) =~= text@);
    }
    loop
        invariant
            chars.len() <= text@.len(),
            chars@ == text@.take(chars.len() as int),
            rest.remaining() == text@.skip(chars.len() as int),
        decreases text@.len() - chars.len(),
    {
        match rest.next() {
            None => {
                assert(chars@ =~= text@);
                return chars;
            },
            Some(c) => {
                proof {
                    let n = chars.len() as int;
                    assert(text@.take(n + 1) =~= text@.take(n).push(c));
                    assert(text@.skip(n).drop_first() =~= text@.skip(n + 1));
                }
                chars.push(c);
            },
        }
    }
}

/// Counts the digits that stand in `chars` from position `from` on, up to
/// the first character that is no digit.
fn count_digits(chars: &Vec<char>, from: usize) -> (n: usize)
    requires
        from <= chars.len(),
    ensures
        n == leading_digits(chars@.skip(from as int)),
        from + n <= chars.len(),
{
    let mut n: usize = 0;
    proof {
        assert(chars@.skip(from as int).skip(0) =~= chars@.skip(from as int));
    }
    while from + n < chars.len() && chars[from + n] >= '0' && chars[from + n] <= '9'
        invariant
            from + n <= chars.len(),
            leading_digits(chars@.skip(from as int)) == n + leading_digits(
                chars@.skip(from + n),
            ),
        decreases chars.len() - from - n,
    {
        proof {
            let here = chars@.skip(from + n);
            assert(here[0] == chars@[from + n]);
            assert(here.drop_first() =~= chars@.skip(from + n + 1));
        }
        n = n + 1;
    }
    proof {
        let here = chars@.skip(from + n);
        if from + n < chars.len() {
            assert(here[0] == chars@[from + n]);
        }
    }
    n
}

/// Whether `c` is the lower-case letter `letter` in either case.
fn same_letter(c: char, letter: char) -> (r: bool)
    requires
        97 <= letter as int <= 122,
    ensures
        r == is_letter(c, letter),
{
    c == letter || c as u32 + 32 == letter as u32
}

/// Whether `chars` from position `from` on is `word` in letters of either
/// case.
fn spells_word(chars: &Vec<char>, from: usize, word: &Vec<char>) -> (r: bool)
    requires
        from <= chars.len(),
        forall|i: int| 0 <= i < word.len() ==> 97 <= (#[trigger] word[i]) as int <= 122,
    ensures
        r == spells(chars@.skip(from as int), word@),
{
    let ghost body = chars@.skip(from as int);
    if chars.len() - from != word.len() {
        return false;
    }
    let mut i: usize = 0;
    while i < word.len()
        invariant
            i <= word.len(),
            from <= chars.len(),
            chars.len() - from == word.len(),
            body == chars@.skip(from as int),
            forall|j: int| 0 <= j < word.len() ==> 97 <= (#[trigger] word[j]) as int <= 122,
            forall|j: int| 0 <= j < i ==> is_letter(#[trigger] body[j], word[j]),
        decreases word.len() - i,
    {
        assert(body[i as int] == chars[from + i]);
        if !same_letter(chars[from + i], word[i]) {
            return false;
        }
        i = i + 1;
    }
    true
}

/// Whether `chars` from position `from` on is an exponent.
fn is_exponent_at(chars: &Vec<char>, from: usize) -> (r: bool)
    requires
        from <= chars.len(),
    ensures
        r == is_exponent(chars@.skip(from as int)),
{
    let ghost s = chars@.skip(from as int);
    let length = chars.len();
    if from == length {
        return false;
    }
    proof {
        assert(s[0] == chars[from as int]);
        assert(s.drop_first() =~= chars@.skip(from + 1));
    }
    if !same_letter(chars[from], 'e') {
        return false;
    }
    let signed = from + 1 < length && (chars[from + 1] == '+' || chars[from + 1] == '-');
    let digits_from = if signed {
        from + 2
    } else {
        from + 1
    };
    let ghost digits = without_sign(s.drop_first());
    proof {
        if from + 1 < length {
            assert(s.drop_first()[0] == chars[from + 1]);
        }
        assert(digits =~= chars@.skip(digits_from as int));
        lemma_leading_digits(digits);
    }
    let count = count_digits(chars, digits_from);
    count > 0 && digits_from + count == length
}

/// Whether `chars` from position `from` on is digits with an optional point
/// and an optional exponent.
fn is_plain_decimal_at(chars: &Vec<char>, from: usize) -> (r: bool)
    requires
        from <= chars.len(),
    ensures
        r == is_plain_decimal(chars@.skip(from as int)),
{
    let ghost s = chars@.skip(from as int);
    let length = chars.len();
    let whole = count_digits(chars, from);
    let point = from + whole;
    let ghost after = s.skip(whole as int);
    proof {
        assert(after =~= chars@.skip(point as int));
        if point < length {
            assert(after[0] == chars[point as int]);
        }
    }
    if point < length && chars[point] == '.' {
        proof {
            assert(after.drop_first() =~= chars@.skip(point + 1));
        }
        let fraction = count_digits(chars, point + 1);
        let end = point + 1 + fraction;
        proof {
            assert(after.drop_first().skip(fraction as int) =~= chars@.skip(end as int));
        }
        if whole == 0 && fraction == 0 {
            return false;
        }
        end == length || is_exponent_at(chars, end)
    } else {
        if whole == 0 {
            return false;
        }
        point == length || is_exponent_at(chars, point)
    }
}

/// Whether `text` is a decimal.
pub fn is_decimal_text(text: &str) -> (r: bool)
    ensures
        r == is_decimal(text@),
{
    let chars = characters(text);
    let start: usize = if chars.len() > 0 && (chars[0] == '+' || chars[0] == '-') {
        1
    } else {
        0
    };
    proof {
        assert(chars@.skip(start as int) =~= without_sign(text@));
    }
    spells_word(&chars, start, &vec!['i', 'n', 'f'])
        || spells_word(&chars, start, &vec!['i', 'n', 'f', 'i', 'n', 'i', 't', 'y'])
        || spells_word(&chars, start, &vec!['n', 'a', 'n'])
        || is_plain_decimal_at(&chars, start)
}

/// The text of one digit.
fn digit_text(d: u32) -> (r: &'static str)
    requires
        d < 10,
    ensures
        r@ == seq![digit_char(d as nat)],
{
    proof {
        reveal_strlit("0");
        reveal_strlit("1");
        reveal_strlit("2");
        reveal_strlit("3");
        reveal_strlit("4");
        reveal_strlit("5");
        reveal_strlit("6");
        reveal_strlit("7");
        reveal_strlit("8");
        reveal_strlit("9");
    }
    let r = if d == 0 {
        "0"
    } else if d == 1 {
        "1"
    } else if d == 2 {
        "2"
    } else if d == 3 {
        "3"
    } else if d == 4 {
        "4"
    } else if d == 5 {
        "5"
    } else if d == 6 {
        "6"
    } else if d == 7 {
        "7"
    } else if d == 8 {
        "8"
    } else {
        "9"
    };
    assert(r@ =~= seq![digit_char(d as nat)]);
    r
}

/// Writes a number of up to 64 bits in decimal digits.
pub fn format_natural(n: u64) -> (r: String)
    ensures
        r@ == number_text(n as nat),
    decreases n,
{
    if n < 10 {
        String::from_str(digit_text(n as u32))
    } else {
        let mut r = format_natural(n / 10);
        r.append(digit_text((n % 10) as u32));
        assert(r@ =~= number_text(n as nat));
        r
    }
}

/// Writes a number in decimal digits.
pub fn format_number(n: u32) -> (r: String)
    ensures
        r@ == number_text(n as nat),
{
    format_natural(n as u64)
}

/// Reads a flag. `None` is returned where `text` is not the number 0 or 1.
pub fn parse_flag(text: &str) -> (r: Option<bool>)
    ensures
        r == parsed_flag(text@),
{
    match parse_number(text) {
        Some(n) => if n == 0 {
            Some(false)
        } else if n == 1 {
            Some(true)
        } else {
            None
        },
        None => None,
    }
}

/// Writes a flag.
pub fn format_flag(flag: bool) -> (r: String)
    ensures
        r@ == flag_text(flag),
{
    proof {
        reveal_strlit("0");
        reveal_strlit("1");
    }
    let r = if flag {
        String::from_str("1")
    } else {
        String::from_str("0")
    };
    assert(r@ =~= flag_text(flag));
    r
}

} // verus!
