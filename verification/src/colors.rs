use crate::text::{
    chars_of, decimal_digits, digit_char, digit_to_char, hex_digit_value, hex_digits, hex_value,
    push_decimal, push_hex, push_text, string_of,
};
use regex::Regex;
use vstd::prelude::*;
use vstd::utf8::{encode_utf8, is_ascii_chars};

verus! {

/// Why a text is no number in the base asked for.
#[derive(Debug, PartialEq, Eq, Clone, Copy, Structural)]
pub enum NumberError {
    /// The text is empty.
    Empty,
    /// The text holds a character that is no digit, or only a sign.
    InvalidDigit,
    /// The number is larger than the limit.
    Overflow,
}

/// The value of `c` as a digit in base ten or sixteen.
pub open spec fn digit_in_base(c: char, base: nat) -> Option<nat> {
    match hex_value(c) {
        Some(v) => if v < base {
            Some(v)
        } else {
            None
        },
        None => None,
    }
}

/// What reading the first `n` digits from the left gives: their value, or the first failure.
/// A character that is no digit fails before the limit is looked at.
pub open spec fn digits_value(digits: Seq<char>, n: int, base: nat, limit: nat) -> Result<
    nat,
    NumberError,
>
    decreases n,
{
    if n <= 0 {
        Ok(0)
    } else {
        match digits_value(digits, n - 1, base, limit) {
            Err(why) => Err(why),
            Ok(before) => match digit_in_base(digits[n - 1], base) {
                None => Err(NumberError::InvalidDigit),
                Some(d) => if before * base + d > limit {
                    Err(NumberError::Overflow)
                } else {
                    Ok(before * base + d)
                },
            },
        }
    }
}

/// The number that `text` writes in base `base`: digits, with an optional `+` in front.
pub open spec fn number_value(text: Seq<char>, base: nat, limit: nat) -> Result<nat, NumberError> {
    if text.len() == 0 {
        Err(NumberError::Empty)
    } else {
        let digits = if text[0] == '+' {
            text.skip(1)
        } else {
            text
        };
        if digits.len() == 0 {
            Err(NumberError::InvalidDigit)
        } else {
            digits_value(digits, digits.len() as int, base, limit)
        }
    }
}

/// Once reading has failed, it has failed for good.
pub proof fn lemma_failure_stays(digits: Seq<char>, m: int, n: int, base: nat, limit: nat)
    requires
        0 <= m <= n,
        digits_value(digits, m, base, limit) is Err,
    ensures
        digits_value(digits, n, base, limit) == digits_value(digits, m, base, limit),
    decreases n - m,
{
    if m < n {
        lemma_failure_stays(digits, m, n - 1, base, limit);
    }
}

/// Reads a number in base ten or sixteen that does not exceed `limit`.
pub fn parse_number(text: &Vec<char>, base: usize, limit: usize) -> (result: Result<
    usize,
    NumberError,
>)
    requires
        base == 10 || base == 16,
        limit <= 0xffff,
    ensures
        match result {
            Ok(n) => number_value(text@, base as nat, limit as nat) == Ok::<nat, NumberError>(
                n as nat,
            ),
            Err(why) => number_value(text@, base as nat, limit as nat) == Err::<
                nat,
                NumberError,
            >(why),
        },
{
    if text.len() == 0 {
        return Err(NumberError::Empty);
    }
    let start: usize = if text[0] == '+' {
        1
    } else {
        0
    };
    if start == text.len() {
        return Err(NumberError::InvalidDigit);
    }
    let ghost digits = text@.skip(start as int);
    assert(text@.skip(0) =~= text@);
    let mut value: usize = 0;
    let mut k: usize = start;
    while k < text.len()
        invariant
            start <= k <= text.len(),
            base == 10 || base == 16,
            limit <= 0xffff,
            value <= limit,
            digits == text@.skip(start as int),
            text@.skip(0) == text@,
            text@.len() > start,
            start == (if text@[0] == '+' {
                1int
            } else {
                0int
            }),
            digits_value(digits, k - start, base as nat, limit as nat) == Ok::<nat, NumberError>(
                value as nat,
            ),
        decreases text.len() - k,
    {
        assert(digits[k - start] == text@[k as int]);
        let ghost total = digits.len() as int;
        let digit = match hex_digit_value(text[k]) {
            Some(d) => d,
            None => {
                proof {
                    assert(digit_in_base(digits[k - start], base as nat) is None);
                    assert(digits_value(digits, k - start + 1, base as nat, limit as nat) is Err);
                    lemma_failure_stays(digits, k - start + 1, total, base as nat, limit as nat);
                }
                return Err(NumberError::InvalidDigit);
            },
        };
        if digit >= base {
            proof {
                assert(digit_in_base(digits[k - start], base as nat) is None);
                assert(digits_value(digits, k - start + 1, base as nat, limit as nat) is Err);
                lemma_failure_stays(digits, k - start + 1, total, base as nat, limit as nat);
            }
            return Err(NumberError::InvalidDigit);
        }
        let next = if base == 10 {
            value * 10 + digit
        } else {
            value * 16 + digit
        };
        assert(next == value * base + digit) by (nonlinear_arith)
            requires
                base == 10 || base == 16,
                next == if base == 10 {
                    value * 10 + digit
                } else {
                    value * 16 + digit
                },
        ;
        if next > limit {
            proof {
                lemma_failure_stays(digits, k - start + 1, total, base as nat, limit as nat);
            }
            return Err(NumberError::Overflow);
        }
        value = next;
        k += 1;
    }
    assert(k - start == digits.len());
    Ok(value)
}

/// The characters of `chars` from `from` up to `to`.
pub fn slice_chars(chars: &Vec<char>, from: usize, to: usize) -> (out: Vec<char>)
    requires
        from <= to <= chars@.len(),
    ensures
        out@ == chars@.subrange(from as int, to as int),
{
    let mut out: Vec<char> = Vec::new();
    let mut k: usize = from;
    while k < to
        invariant
            from <= k <= to <= chars@.len(),
            out@ == chars@.subrange(from as int, k as int),
        decreases to - k,
    {
        out.push(chars[k]);
        assert(chars@.subrange(from as int, k + 1) =~= chars@.subrange(from as int, k as int).push(
            chars@[k as int],
        ));
        k += 1;
    }
    out
}

/// The three parts of a colour code after its first character: each of three digits
/// doubled, or else the first three pairs.
pub open spec fn colour_parts(body: Seq<char>) -> (Seq<char>, Seq<char>, Seq<char>) {
    if body.len() == 3 {
        (seq![body[0], body[0]], seq![body[1], body[1]], seq![body[2], body[2]])
    } else {
        (body.subrange(0, 2), body.subrange(2, 4), body.subrange(4, 6))
    }
}

/// The text `rgb(r, g, b)` with the three numbers in decimal.
pub open spec fn rgb_text(r: nat, g: nat, b: nat) -> Seq<char> {
    "rgb("@ + decimal_digits(r) + ", "@ + decimal_digits(g) + ", "@ + decimal_digits(b) + ")"@
}

/// What `hex_to_rgb` makes of a colour code.
pub open spec fn hex_to_rgb_spec(hex: Seq<char>) -> Option<Seq<char>> {
    let parts = colour_parts(hex.skip(1));
    match (number_value(parts.0, 16, 255), number_value(parts.1, 16, 255), number_value(
        parts.2,
        16,
        255,
    )) {
        (Ok(r), Ok(g), Ok(b)) => Some(rgb_text(r, g, b)),
        _ => None,
    }
}

/// A text that `hex_to_rgb` can take apart: plain ASCII, one leading character, and then
/// either three characters or at least six.
pub open spec fn has_colour_shape(hex: Seq<char>) -> bool {
    is_ascii_chars(hex) && (hex.len() == 4 || hex.len() >= 7)
}

/// Decides whether `hex` has the shape that `hex_to_rgb` asks for.
pub fn check_colour_shape(hex: &str) -> (ok: bool)
    ensures
        ok == has_colour_shape(hex@),
{
    let n = hex.unicode_len();
    hex.is_ascii() && (n == 4 || n >= 7)
}

/// Turns a colour code such as `#efc` or `#564da9` into `rgb(r, g, b)`.
///
/// The first character is skipped.  Three characters after it are read as three digits,
/// each doubled; otherwise the first six are read as three pairs.  The result is none when
/// a part is no hexadecimal number.
pub fn hex_to_rgb(hex: &str) -> (result: Option<String>)
    requires
        has_colour_shape(hex@),
    ensures
        match result {
            Some(text) => hex_to_rgb_spec(hex@) == Some(text@),
            None => hex_to_rgb_spec(hex@) is None,
        },
{
    let all = chars_of(hex);
    let body = slice_chars(&all, 1, all.len());
    assert(body@ =~= hex@.skip(1));
    let (first, second, third) = if body.len() == 3 {
        let mut first: Vec<char> = Vec::new();
        first.push(body[0]);
        first.push(body[0]);
        let mut second: Vec<char> = Vec::new();
        second.push(body[1]);
        second.push(body[1]);
        let mut third: Vec<char> = Vec::new();
        third.push(body[2]);
        third.push(body[2]);
        proof {
            assert(first@ =~= seq![body@[0], body@[0]]);
            assert(second@ =~= seq![body@[1], body@[1]]);
            assert(third@ =~= seq![body@[2], body@[2]]);
        }
        (first, second, third)
    } else {
        (slice_chars(&body, 0, 2), slice_chars(&body, 2, 4), slice_chars(&body, 4, 6))
    };
    let r = match parse_number(&first, 16, 255) {
        Ok(r) => r,
        Err(_) => {
            return None;
        },
    };
    let g = match parse_number(&second, 16, 255) {
        Ok(g) => g,
        Err(_) => {
            return None;
        },
    };
    let b = match parse_number(&third, 16, 255) {
        Ok(b) => b,
        Err(_) => {
            return None;
        },
    };
    let mut out: Vec<char> = Vec::new();
    push_text(&mut out, "rgb(");
    push_decimal(&mut out, r);
    push_text(&mut out, ", ");
    push_decimal(&mut out, g);
    push_text(&mut out, ", ");
    push_decimal(&mut out, b);
    push_text(&mut out, ")");
    assert(out@ =~= rgb_text(r as nat, g as nat, b as nat));
    Some(string_of(&out))
}

/// Two hexadecimal digits for a number below 256, in lower case.
pub open spec fn hex_pair(n: nat) -> Seq<char> {
    seq![digit_char((n / 16) as int), digit_char((n % 16) as int)]
}

/// The text `#rrggbb` for three numbers below 256.
pub open spec fn hex_text(r: nat, g: nat, b: nat) -> Seq<char> {
    "#"@ + hex_pair(r) + hex_pair(g) + hex_pair(b)
}

/// The number below 256 that a captured group writes in decimal, if it does.
pub open spec fn group_value(group: Option<Seq<char>>) -> Option<nat> {
    match group {
        Some(text) => match number_value(text, 10, 255) {
            Ok(n) => Some(n),
            Err(_) => None,
        },
        None => None,
    }
}

/// What the first three captured groups of an `rgb(..)` text give: the colour code, if each
/// group is a decimal number below 256.
pub open spec fn rgb_groups_spec(groups: Seq<Option<Seq<char>>>) -> Option<Seq<char>> {
    if groups.len() < 4 {
        None
    } else {
        match (group_value(groups[1]), group_value(groups[2]), group_value(groups[3])) {
            (Some(r), Some(g), Some(b)) => Some(hex_text(r, g, b)),
            _ => None,
        }
    }
}

/// What a sequence of captured groups holds.
pub open spec fn groups_of(groups: Seq<Option<String>>) -> Seq<Option<Seq<char>>> {
    Seq::new(
        groups.len(),
        |k: int|
            match groups[k] {
                Some(text) => Some(text@),
                None => None,
            },
    )
}

/// Reads the number below 256 that a captured group writes in decimal.
pub fn read_group(group: &Option<String>) -> (value: Option<usize>)
    ensures
        match value {
            Some(n) => group_value(
                match group {
                    Some(text) => Some(text@),
                    None => None,
                },
            ) == Some(n as nat),
            None => group_value(
                match group {
                    Some(text) => Some(text@),
                    None => None,
                },
            ) is None,
        },
{
    match group {
        Some(text) => {
            let chars = chars_of(text.as_str());
            match parse_number(&chars, 10, 255) {
                Ok(n) => Some(n),
                Err(_) => None,
            }
        },
        None => None,
    }
}

/// Builds the colour code `#rrggbb` from the groups captured in an `rgb(r, g, b)` text:
/// the whole match first, then the three numbers.
pub fn rgb_from_groups(groups: &Vec<Option<String>>) -> (result: Option<String>)
    ensures
        match result {
            Some(text) => rgb_groups_spec(groups_of(groups@)) == Some(text@),
            None => rgb_groups_spec(groups_of(groups@)) is None,
        },
{
    if groups.len() < 4 {
        return None;
    }
    let r = match read_group(&groups[1]) {
        Some(r) => r,
        None => {
            return None;
        },
    };
    let g = match read_group(&groups[2]) {
        Some(g) => g,
        None => {
            return None;
        },
    };
    let b = match read_group(&groups[3]) {
        Some(b) => b,
        None => {
            return None;
        },
    };
    let mut out: Vec<char> = Vec::new();
    push_text(&mut out, "#");
    out.push(digit_to_char(r / 16));
    out.push(digit_to_char(r % 16));
    out.push(digit_to_char(g / 16));
    out.push(digit_to_char(g % 16));
    out.push(digit_to_char(b / 16));
    out.push(digit_to_char(b % 16));
    assert(out@ =~= hex_text(r as nat, g as nat, b as nat));
    Some(string_of(&out))
}

/// Whether the regular expression `pattern` matches somewhere in `text`; none where
/// `pattern` is no regular expression.
pub uninterp spec fn regex_match(pattern: Seq<char>, text: Seq<char>) -> Option<bool>;

/// The groups that the regular expression `pattern` captures at its first match in `text`,
/// the whole match first and none for a group that took no part; none where there is no
/// match or `pattern` is no regular expression.
pub uninterp spec fn regex_groups(pattern: Seq<char>, text: Seq<char>) -> Option<
    Seq<Option<Seq<char>>>,
>;

/// `regex::Regex::new` and `Regex::is_match`: compiles the pattern and reports whether it
/// matches anywhere in the text.  The contract only names the result.
#[verifier::external_body]
fn pattern_matches(pattern: &str, text: &str) -> (out: Option<bool>)
    ensures
        out == regex_match(pattern@, text@),
{
    match Regex::new(pattern) {
        Ok(compiled) => Some(compiled.is_match(text)),
        Err(_) => None,
    }
}

/// `regex::Regex::new` and `Regex::captures`: compiles the pattern and hands out the
/// groups of its first match in the text.  The contract only names the result.
#[verifier::external_body]
fn pattern_groups(pattern: &str, text: &str) -> (out: Option<Vec<Option<String>>>)
    ensures
        match out {
            Some(groups) => regex_groups(pattern@, text@) == Some(groups_of(groups@)),
            None => regex_groups(pattern@, text@) is None,
        },
{
    match Regex::new(pattern) {
        Ok(compiled) => compiled.captures(text).map(
            |found| found.iter().map(|group| group.map(|m| m.as_str().to_string())).collect(),
        ),
        Err(_) => None,
    }
}

/// The pattern of a colour code of three or six hexadecimal digits.
pub open spec fn hex_pattern() -> Seq<char> {
    "^#([0-9a-fA-F]{3}|[0-9a-fA-F]{6})$"@
}

/// The pattern of a colour written as `rgb(r, g, b)`.
pub open spec fn rgb_pattern() -> Seq<char> {
    "^rgb\\(\\s*(\\d{1,3})\\s*,\\s*(\\d{1,3})\\s*,\\s*(\\d{1,3})\\s*\\)$"@
}

/// Turns a colour written as `rgb(r, g, b)` into `#rrggbb`.
///
/// The result is none when the text has not that form or a number is above 255.
pub fn rgb_to_hex(rgb: &str) -> (result: Option<String>)
    ensures
        match result {
            Some(text) => regex_groups(rgb_pattern(), rgb@) matches Some(groups)
                && rgb_groups_spec(groups) == Some(text@),
            None => regex_groups(rgb_pattern(), rgb@) matches Some(groups) ==> rgb_groups_spec(
                groups,
            ) is None,
        },
{
    match pattern_groups(
        "^rgb\\(\\s*(\\d{1,3})\\s*,\\s*(\\d{1,3})\\s*,\\s*(\\d{1,3})\\s*\\)$",
        rgb,
    ) {
        Some(groups) => rgb_from_groups(&groups),
        None => None,
    }
}

/// What `convert_color` makes of a text, given whether it matched the pattern of a
/// hexadecimal colour code, and else the groups it gave to the pattern of an `rgb(..)` text.
pub open spec fn convert_spec(
    code: Seq<char>,
    is_hex: Option<bool>,
    rgb_groups: Option<Seq<Option<Seq<char>>>>,
) -> Option<Seq<char>> {
    if is_hex == Some(true) {
        if has_colour_shape(code) {
            hex_to_rgb_spec(code)
        } else {
            None
        }
    } else {
        match rgb_groups {
            Some(groups) => rgb_groups_spec(groups),
            None => None,
        }
    }
}

/// Converts a colour code whose match against the two patterns is known.
pub fn convert_matched(
    color_code: &str,
    is_hex: Option<bool>,
    rgb_groups: Option<Vec<Option<String>>>,
) -> (result: Option<String>)
    ensures
        match result {
            Some(text) => convert_spec(
                color_code@,
                is_hex,
                match rgb_groups {
                    Some(groups) => Some(groups_of(groups@)),
                    None => None,
                },
            ) == Some(text@),
            None => convert_spec(
                color_code@,
                is_hex,
                match rgb_groups {
                    Some(groups) => Some(groups_of(groups@)),
                    None => None,
                },
            ) is None,
        },
{
    let hex_matched = match is_hex {
        Some(found) => found,
        None => false,
    };
    if hex_matched {
        if check_colour_shape(color_code) {
            hex_to_rgb(color_code)
        } else {
            None
        }
    } else {
        match rgb_groups {
            Some(groups) => rgb_from_groups(&groups),
            None => None,
        }
    }
}

/// Converts a hexadecimal colour code to `rgb(r, g, b)` and a colour written as
/// `rgb(r, g, b)` to a hexadecimal code; none for any other text.
pub fn convert_color(color_code: &str) -> (result: Option<String>)
    ensures
        match result {
            Some(text) => convert_spec(
                color_code@,
                regex_match(hex_pattern(), color_code@),
                regex_groups(rgb_pattern(), color_code@),
            ) == Some(text@),
            None => convert_spec(
                color_code@,
                regex_match(hex_pattern(), color_code@),
                regex_groups(rgb_pattern(), color_code@),
            ) is None,
        },
{
    let is_hex = pattern_matches("^#([0-9a-fA-F]{3}|[0-9a-fA-F]{6})$", color_code);
    let rgb_groups = pattern_groups(
        "^rgb\\(\\s*(\\d{1,3})\\s*,\\s*(\\d{1,3})\\s*,\\s*(\\d{1,3})\\s*\\)$",
        color_code,
    );
    convert_matched(color_code, is_hex, rgb_groups)
}

/// What `mean_hex` makes of two texts: the mean of the two numbers in hexadecimal, or the
/// failure of the first text that is no number.
pub open spec fn mean_hex_spec(hex_1: Seq<char>, hex_2: Seq<char>) -> Result<
    Seq<char>,
    NumberError,
> {
    match number_value(hex_1, 16, 0xffff) {
        Err(why) => Err(why),
        Ok(a) => match number_value(hex_2, 16, 0xffff) {
            Err(why) => Err(why),
            Ok(b) => Ok(hex_digits((a + b) / 2)),
        },
    }
}

/// The sum of the two numbers fits in sixteen bits, where both texts are numbers.
pub open spec fn sum_fits(hex_1: Seq<char>, hex_2: Seq<char>) -> bool {
    number_value(hex_1, 16, 0xffff) matches Ok(a) ==> (number_value(hex_2, 16, 0xffff) matches Ok(
        b,
    ) ==> a + b <= 0xffff)
}

/// Reads two hexadecimal numbers of up to sixteen bits and writes their mean, rounded
/// down, in hexadecimal without leading zeros.
pub fn mean_hex_chars(hex_1: &Vec<char>, hex_2: &Vec<char>) -> (result: Result<
    String,
    NumberError,
>)
    requires
        sum_fits(hex_1@, hex_2@),
    ensures
        match result {
            Ok(text) => mean_hex_spec(hex_1@, hex_2@) == Ok::<Seq<char>, NumberError>(text@),
            Err(why) => mean_hex_spec(hex_1@, hex_2@) == Err::<Seq<char>, NumberError>(why),
        },
{
    let a = match parse_number(hex_1, 16, 0xffff) {
        Ok(a) => a,
        Err(why) => {
            return Err(why);
        },
    };
    let b = match parse_number(hex_2, 16, 0xffff) {
        Ok(b) => b,
        Err(why) => {
            return Err(why);
        },
    };
    let mean = (a + b) / 2;
    let mut out: Vec<char> = Vec::new();
    push_hex(&mut out, mean);
    Ok(string_of(&out))
}

/// Reads two hexadecimal numbers of up to sixteen bits and writes their mean, rounded
/// down, in hexadecimal without leading zeros.
pub fn mean_hex(hex_1: &str, hex_2: &str) -> (result: Result<String, NumberError>)
    requires
        sum_fits(hex_1@, hex_2@),
    ensures
        match result {
            Ok(text) => mean_hex_spec(hex_1@, hex_2@) == Ok::<Seq<char>, NumberError>(text@),
            Err(why) => mean_hex_spec(hex_1@, hex_2@) == Err::<Seq<char>, NumberError>(why),
        },
{
    let first = chars_of(hex_1);
    let second = chars_of(hex_2);
    mean_hex_chars(&first, &second)
}

/// The means of the red, green and blue parts of two colours, one after the other, or the
/// first failure.
pub open spec fn mean_color_spec(c1: Seq<char>, c2: Seq<char>) -> Result<Seq<char>, NumberError> {
    match mean_hex_spec(c1.subrange(0, 2), c2.subrange(0, 2)) {
        Err(why) => Err(why),
        Ok(red) => match mean_hex_spec(c1.subrange(2, 4), c2.subrange(2, 4)) {
            Err(why) => Err(why),
            Ok(green) => match mean_hex_spec(c1.skip(4), c2.skip(4)) {
                Err(why) => Err(why),
                Ok(blue) => Ok(red + green + blue),
            },
        },
    }
}

/// Two colours that `find_mean_color` can take apart: plain ASCII, at least four
/// characters each, and the sum of what follows the fourth fits in sixteen bits.
pub open spec fn can_be_averaged(c1: Seq<char>, c2: Seq<char>) -> bool {
    &&& is_ascii_chars(c1)
    &&& is_ascii_chars(c2)
    &&& c1.len() >= 4
    &&& c2.len() >= 4
    &&& sum_fits(c1.skip(4), c2.skip(4))
}

proof fn lemma_two_digits_fit(a: Seq<char>, b: Seq<char>)
    requires
        a.len() == 2,
        b.len() == 2,
    ensures
        sum_fits(a, b),
{
    reveal_with_fuel(digits_value, 3);
    if number_value(a, 16, 0xffff) is Ok && number_value(b, 16, 0xffff) is Ok {
        let da = if a[0] == '+' {
            a.skip(1)
        } else {
            a
        };
        let db = if b[0] == '+' {
            b.skip(1)
        } else {
            b
        };
        assert(digits_value(da, da.len() as int, 16, 0xffff) is Ok);
        assert(digits_value(db, db.len() as int, 16, 0xffff) is Ok);
        assert(number_value(a, 16, 0xffff)->Ok_0 <= 255);
        assert(number_value(b, 16, 0xffff)->Ok_0 <= 255);
    }
}

/// The colour midway between two colours of six hexadecimal digits: the mean of the two
/// reds, of the two greens and of the two blues, each written without leading zeros.
pub fn find_mean_color(color_1: &str, color_2: &str) -> (result: Result<String, NumberError>)
    requires
        can_be_averaged(color_1@, color_2@),
    ensures
        match result {
            Ok(text) => mean_color_spec(color_1@, color_2@) == Ok::<Seq<char>, NumberError>(
                text@,
            ),
            Err(why) => mean_color_spec(color_1@, color_2@) == Err::<Seq<char>, NumberError>(
                why,
            ),
        },
{
    let c1 = chars_of(color_1);
    let c2 = chars_of(color_2);
    let first_red = slice_chars(&c1, 0, 2);
    let first_green = slice_chars(&c1, 2, 4);
    let first_blue = slice_chars(&c1, 4, c1.len());
    let second_red = slice_chars(&c2, 0, 2);
    let second_green = slice_chars(&c2, 2, 4);
    let second_blue = slice_chars(&c2, 4, c2.len());
    proof {
        lemma_two_digits_fit(first_red@, second_red@);
        lemma_two_digits_fit(first_green@, second_green@);
        assert(first_blue@ =~= color_1@.skip(4));
        assert(second_blue@ =~= color_2@.skip(4));
    }
    let mean_red = match mean_hex_chars(&first_red, &second_red) {
        Ok(text) => text,
        Err(why) => {
            return Err(why);
        },
    };
    let mean_green = match mean_hex_chars(&first_green, &second_green) {
        Ok(text) => text,
        Err(why) => {
            return Err(why);
        },
    };
    let mean_blue = match mean_hex_chars(&first_blue, &second_blue) {
        Ok(text) => text,
        Err(why) => {
            return Err(why);
        },
    };
    let mut out: Vec<char> = Vec::new();
    push_text(&mut out, mean_red.as_str());
    push_text(&mut out, mean_green.as_str());
    push_text(&mut out, mean_blue.as_str());
    assert(out@ =~= mean_red@ + mean_green@ + mean_blue@);
    Ok(string_of(&out))
}

/// Why a text is no colour of six hexadecimal digits.
#[derive(Debug, PartialEq, Eq)]
pub struct HexError {
    /// The text that was refused.
    pub hex: String,
    /// What is wrong with it.
    pub message: String,
}

/// The first position of `s` that holds no hexadecimal digit.
pub open spec fn first_bad_digit(s: Seq<char>, k: int) -> bool {
    &&& 0 <= k < s.len()
    &&& hex_value(s[k]) is None
    &&& forall|e: int| 0 <= e < k ==> hex_value(s[e]) is Some
}

/// What is wrong with `hex`, if anything: its encoding is not six bytes long, or else its
/// first character that is no hexadecimal digit.
pub open spec fn hex_fault(hex: Seq<char>) -> Option<Seq<char>> {
    if encode_utf8(hex).len() != 6 {
        Some("hex length needs to be 6"@)
    } else if exists|k: int| first_bad_digit(hex, k) {
        let k = choose|k: int| first_bad_digit(hex, k);
        Some("Invalid hex digit '"@ + seq![hex[k]] + "'"@)
    } else {
        None
    }
}

/// Accepts a colour of six hexadecimal digits and hands it back; refuses any other text
/// with the reason.
pub fn hex_valid<'a>(hex: &'a str) -> (result: Result<&'a str, HexError>)
    ensures
        match result {
            Ok(same) => hex_fault(hex@) is None && same@ == hex@,
            Err(why) => hex_fault(hex@) == Some(why.message@) && why.hex@ == hex@,
        },
{
    let bytes = hex.as_bytes();
    if bytes.len() != 6 {
        return Err(
            HexError { hex: hex.to_owned(), message: "hex length needs to be 6".to_owned() },
        );
    }
    let chars = chars_of(hex);
    let mut k: usize = 0;
    while k < chars.len()
        invariant
            k <= chars.len(),
            chars@ == hex@,
            encode_utf8(hex@).len() == 6,
            forall|e: int| 0 <= e < k ==> hex_value(chars@[e]) is Some,
        decreases chars.len() - k,
    {
        let c = chars[k];
        if hex_digit_value(c).is_none() {
            let mut message: Vec<char> = Vec::new();
            push_text(&mut message, "Invalid hex digit '");
            message.push(c);
            push_text(&mut message, "'");
            proof {
                assert(first_bad_digit(hex@, k as int));
                let chosen = choose|e: int| first_bad_digit(hex@, e);
                assert(first_bad_digit(hex@, chosen));
                if chosen < k {
                    assert(hex_value(chars@[chosen]) is Some);
                }
                if chosen > k {
                    assert(hex_value(hex@[k as int]) is Some);
                }
                assert(chosen == k);
                assert(message@ =~= "Invalid hex digit '"@ + seq![c] + "'"@);
            }
            return Err(HexError { hex: hex.to_owned(), message: string_of(&message) });
        }
        k += 1;
    }
    proof {
        if exists|e: int| first_bad_digit(hex@, e) {
            let e = choose|e: int| first_bad_digit(hex@, e);
            assert(hex_value(chars@[e]) is Some);
        }
    }
    Ok(hex)
}

/// Accepts two colours of six hexadecimal digits each; refuses with what is wrong with the
/// first one that is not.
pub fn validate_hex_pair<'a>(hex_1: &'a str, hex_2: &'a str) -> (result: Result<
    (&'a str, &'a str),
    HexError,
>)
    ensures
        match result {
            Ok(pair) => hex_fault(hex_1@) is None && hex_fault(hex_2@) is None && pair.0@
                == hex_1@ && pair.1@ == hex_2@,
            Err(why) => if hex_fault(hex_1@) is Some {
                hex_fault(hex_1@) == Some(why.message@) && why.hex@ == hex_1@
            } else {
                hex_fault(hex_2@) == Some(why.message@) && why.hex@ == hex_2@
            },
        },
{
    match hex_valid(hex_1) {
        Ok(_) => {},
        Err(why) => {
            return Err(why);
        },
    }
    match hex_valid(hex_2) {
        Ok(_) => {},
        Err(why) => {
            return Err(why);
        },
    }
    Ok((hex_1, hex_2))
}

} // verus!
