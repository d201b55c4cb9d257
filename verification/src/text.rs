use vstd::prelude::*;

verus! {

/// `String::push` appends one character to the end of the string.
pub assume_specification[ String::push ](s: &mut String, ch: char)
    ensures
        final(s)@ == old(s)@.push(ch),
;

/// The texts that a sequence of strings holds.
pub open spec fn texts_of(v: Seq<String>) -> Seq<Seq<char>> {
    Seq::new(v.len(), |k: int| v[k]@)
}

/// The characters of `s`, in order.
pub fn chars_of(s: &str) -> (out: Vec<char>)
    ensures
        out@ == s@,
{
    let n = s.unicode_len();
    let mut out: Vec<char> = Vec::new();
    let mut k: usize = 0;
    while k < n
        invariant
            n == s@.len(),
            k <= n,
            out@ == s@.take(k as int),
        decreases n - k,
    {
        out.push(s.get_char(k));
        assert(s@.take(k as int + 1) =~= s@.take(k as int).push(s@[k as int]));
        k += 1;
    }
    assert(s@.take(n as int) =~= s@);
    out
}

/// The string whose characters are those of `chars`, in order.
pub fn string_of(chars: &Vec<char>) -> (out: String)
    ensures
        out@ == chars@,
{
    let mut out = String::new();
    let mut k: usize = 0;
    while k < chars.len()
        invariant
            k <= chars.len(),
            out@ == chars@.take(k as int),
        decreases chars.len() - k,
    {
        out.push(chars[k]);
        assert(chars@.take(k as int + 1) =~= chars@.take(k as int).push(chars@[k as int]));
        k += 1;
    }
    assert(chars@.take(chars.len() as int) =~= chars@);
    out
}

/// Appends the characters `more` to `buffer`.
pub fn push_chars(buffer: &mut Vec<char>, more: &Vec<char>)
    ensures
        final(buffer)@ == old(buffer)@ + more@,
{
    let mut k: usize = 0;
    while k < more.len()
        invariant
            k <= more.len(),
            buffer@ == old(buffer)@ + more@.take(k as int),
        decreases more.len() - k,
    {
        buffer.push(more[k]);
        assert(more@.take(k as int + 1) =~= more@.take(k as int).push(more@[k as int]));
        k += 1;
    }
    assert(more@.take(more.len() as int) =~= more@);
}

/// Appends the characters of `text` to `buffer`.
pub fn push_text(buffer: &mut Vec<char>, text: &str)
    ensures
        final(buffer)@ == old(buffer)@ + text@,
{
    let more = chars_of(text);
    push_chars(buffer, &more);
}

/// The character that stands for the digit `d` in bases up to sixteen, in lower case.
pub open spec fn digit_char(d: int) -> char {
    if d == 0 {
        '0'
    } else if d == 1 {
        '1'
    } else if d == 2 {
        '2'
    } else if d == 3 {
        '3'
    } else if d == 4 {
        '4'
    } else if d == 5 {
        '5'
    } else if d == 6 {
        '6'
    } else if d == 7 {
        '7'
    } else if d == 8 {
        '8'
    } else if d == 9 {
        '9'
    } else if d == 10 {
        'a'
    } else if d == 11 {
        'b'
    } else if d == 12 {
        'c'
    } else if d == 13 {
        'd'
    } else if d == 14 {
        'e'
    } else {
        'f'
    }
}

/// The decimal digits of `n`, most significant first, without leading zeros.
pub open spec fn decimal_digits(n: nat) -> Seq<char>
    decreases n,
{
    if n < 10 {
        seq![digit_char(n as int)]
    } else {
        decimal_digits(n / 10).push(digit_char((n % 10) as int))
    }
}

/// The hexadecimal digits of `n` in lower case, most significant first, without leading
/// zeros.
pub open spec fn hex_digits(n: nat) -> Seq<char>
    decreases n,
{
    if n < 16 {
        seq![digit_char(n as int)]
    } else {
        hex_digits(n / 16).push(digit_char((n % 16) as int))
    }
}

/// The character for one digit.
pub fn digit_to_char(d: usize) -> (c: char)
    requires
        d < 16,
    ensures
        c == digit_char(d as int),
{
    if d == 0 {
        '0'
    } else if d == 1 {
        '1'
    } else if d == 2 {
        '2'
    } else if d == 3 {
        '3'
    } else if d == 4 {
        '4'
    } else if d == 5 {
        '5'
    } else if d == 6 {
        '6'
    } else if d == 7 {
        '7'
    } else if d == 8 {
        '8'
    } else if d == 9 {
        '9'
    } else if d == 10 {
        'a'
    } else if d == 11 {
        'b'
    } else if d == 12 {
        'c'
    } else if d == 13 {
        'd'
    } else if d == 14 {
        'e'
    } else {
        'f'
    }
}

/// Appends the decimal digits of `n` to `buffer`.
pub fn push_decimal(buffer: &mut Vec<char>, n: usize)
    ensures
        final(buffer)@ == old(buffer)@ + decimal_digits(n as nat),
    decreases n,
{
    if n >= 10 {
        push_decimal(buffer, n / 10);
    }
    buffer.push(digit_to_char(n % 10));
    proof {
        if n >= 10 {
            assert(buffer@ =~= old(buffer)@ + decimal_digits((n / 10) as nat).push(
                digit_char((n % 10) as int),
            ));
        } else {
            assert(buffer@ =~= old(buffer)@ + seq![digit_char(n as int)]);
        }
    }
}

/// Appends the hexadecimal digits of `n` to `buffer`.
pub fn push_hex(buffer: &mut Vec<char>, n: usize)
    ensures
        final(buffer)@ == old(buffer)@ + hex_digits(n as nat),
    decreases n,
{
    if n >= 16 {
        push_hex(buffer, n / 16);
    }
    buffer.push(digit_to_char(n % 16));
    proof {
        if n >= 16 {
            assert(buffer@ =~= old(buffer)@ + hex_digits((n / 16) as nat).push(
                digit_char((n % 16) as int),
            ));
        } else {
            assert(buffer@ =~= old(buffer)@ + seq![digit_char(n as int)]);
        }
    }
}

/// The value of a hexadecimal digit, in either case; none for any other character.
pub open spec fn hex_value(c: char) -> Option<nat> {
    if '0' <= c <= '9' {
        Some((c as nat - '0' as nat) as nat)
    } else if 'a' <= c <= 'f' {
        Some((c as nat - 'a' as nat + 10) as nat)
    } else if 'A' <= c <= 'F' {
        Some((c as nat - 'A' as nat + 10) as nat)
    } else {
        None
    }
}

/// Reads one hexadecimal digit.
pub fn hex_digit_value(c: char) -> (value: Option<usize>)
    ensures
        match value {
            Some(v) => hex_value(c) == Some(v as nat) && v < 16,
            None => hex_value(c) is None,
        },
{
    if c >= '0' && c <= '9' {
        Some((c as u32 - '0' as u32) as usize)
    } else if c >= 'a' && c <= 'f' {
        Some((c as u32 - 'a' as u32 + 10) as usize)
    } else if c >= 'A' && c <= 'F' {
        Some((c as u32 - 'A' as u32 + 10) as usize)
    } else {
        None
    }
}

/// Whether `needle` stands in `haystack` from position `at` on.
pub open spec fn occurs_at(haystack: Seq<char>, needle: Seq<char>, at: int) -> bool {
    0 <= at && at + needle.len() <= haystack.len() && haystack.subrange(
        at,
        at + needle.len(),
    ) == needle
}

/// Whether `needle` stands somewhere in `haystack`.
pub open spec fn has_substring(haystack: Seq<char>, needle: Seq<char>) -> bool {
    exists|at: int| occurs_at(haystack, needle, at)
}

/// Decides whether `needle` stands in `haystack` from position `at` on.
pub fn matches_at(haystack: &Vec<char>, needle: &Vec<char>, at: usize) -> (found: bool)
    ensures
        found == occurs_at(haystack@, needle@, at as int),
{
    if needle.len() > haystack.len() || at > haystack.len() - needle.len() {
        return false;
    }
    let mut k: usize = 0;
    while k < needle.len()
        invariant
            k <= needle.len(),
            at + needle.len() <= haystack.len(),
            forall|e: int| 0 <= e < k ==> haystack@[at + e] == needle@[e],
        decreases needle.len() - k,
    {
        if haystack[at + k] != needle[k] {
            proof {
                let part = haystack@.subrange(at as int, at + needle.len());
                assert(part[k as int] == haystack@[at + k]);
            }
            return false;
        }
        k += 1;
    }
    assert(haystack@.subrange(at as int, at + needle.len()) =~= needle@);
    true
}

/// The first position from `from` on at which `needle` stands in `haystack`, if any.
pub fn find_from(haystack: &Vec<char>, needle: &Vec<char>, from: usize) -> (place: Option<usize>)
    ensures
        match place {
            Some(at) => from <= at && occurs_at(haystack@, needle@, at as int) && forall|e: int|
                from <= e < at ==> !occurs_at(haystack@, needle@, e),
            None => forall|e: int| from <= e ==> !occurs_at(haystack@, needle@, e),
        },
{
    let mut at: usize = from;
    while at < haystack.len()
        invariant
            from <= at,
            forall|e: int| from <= e < at ==> !occurs_at(haystack@, needle@, e),
        decreases haystack.len() - at,
    {
        if matches_at(haystack, needle, at) {
            return Some(at);
        }
        at += 1;
    }
    if matches_at(haystack, needle, at) {
        return Some(at);
    }
    None
}

/// Decides whether `needle` stands somewhere in `haystack`.
pub fn contains_text(haystack: &str, needle: &str) -> (found: bool)
    ensures
        found == has_substring(haystack@, needle@),
{
    let h = chars_of(haystack);
    let n = chars_of(needle);
    match find_from(&h, &n, 0) {
        Some(_) => true,
        None => false,
    }
}

/// `s` with every `from` replaced by `to`.
pub open spec fn replaced(s: Seq<char>, from: char, to: char) -> Seq<char> {
    Seq::new(s.len(), |k: int| if s[k] == from { to } else { s[k] })
}

/// Appends `text` to `buffer` with every `from` replaced by `to`.
pub fn push_replaced(buffer: &mut Vec<char>, text: &str, from: char, to: char)
    ensures
        final(buffer)@ == old(buffer)@ + replaced(text@, from, to),
{
    let chars = chars_of(text);
    let mut k: usize = 0;
    while k < chars.len()
        invariant
            k <= chars.len(),
            chars@ == text@,
            buffer@ == old(buffer)@ + replaced(text@, from, to).take(k as int),
        decreases chars.len() - k,
    {
        let c = chars[k];
        if c == from {
            buffer.push(to);
        } else {
            buffer.push(c);
        }
        proof {
            let r = replaced(text@, from, to);
            assert(r.take(k as int + 1) =~= r.take(k as int).push(r[k as int]));
        }
        k += 1;
    }
    assert(replaced(text@, from, to).take(chars.len() as int) =~= replaced(text@, from, to));
}

/// The texts of `pieces` one after the other, with `separator` between each two.
pub open spec fn joined(pieces: Seq<Seq<char>>, separator: Seq<char>) -> Seq<char>
    decreases pieces.len(),
{
    if pieces.len() == 0 {
        Seq::<char>::empty()
    } else if pieces.len() == 1 {
        pieces[0]
    } else {
        joined(pieces.drop_last(), separator) + separator + pieces.last()
    }
}

/// Writes the texts of `pieces` one after the other, with `separator` between each two.
pub fn join_texts(pieces: &Vec<String>, separator: &str) -> (out: String)
    ensures
        out@ == joined(texts_of(pieces@), separator@),
{
    let mut buffer: Vec<char> = Vec::new();
    let mut k: usize = 0;
    while k < pieces.len()
        invariant
            k <= pieces@.len(),
            buffer@ == joined(texts_of(pieces@).take(k as int), separator@),
        decreases pieces@.len() - k,
    {
        let ghost before = buffer@;
        if k > 0 {
            push_text(&mut buffer, separator);
        }
        push_text(&mut buffer, pieces[k].as_str());
        proof {
            let all = texts_of(pieces@);
            let next = all.take(k as int + 1);
            assert(next.drop_last() =~= all.take(k as int));
            assert(next.last() == pieces@[k as int]@);
            if k == 0 {
                assert(buffer@ =~= next[0]);
            } else {
                assert(buffer@ =~= before + separator@ + next.last());
            }
        }
        k += 1;
    }
    assert(texts_of(pieces@).take(pieces@.len() as int) =~= texts_of(pieces@));
    string_of(&buffer)
}

/// What the lower-casing of the standard library makes of a sequence of characters.
pub uninterp spec fn lowercase_of(s: Seq<char>) -> Seq<char>;

/// `str::to_lowercase`: the lower-case equivalent of the string, as the standard library
/// defines it for Unicode text.  The contract only names the result.
#[verifier::external_body]
pub(crate) fn lowercase(s: &str) -> (out: String)
    ensures
        out@ == lowercase_of(s@),
{
    s.to_lowercase()
}

/// The characters of `chars` from `from` up to `to`, as a string.
pub fn piece_of(chars: &Vec<char>, from: usize, to: usize) -> (out: String)
    requires
        from <= to <= chars@.len(),
    ensures
        out@ == chars@.subrange(from as int, to as int),
{
    let mut out = String::new();
    let mut k: usize = from;
    while k < to
        invariant
            from <= k <= to <= chars@.len(),
            out@ == chars@.subrange(from as int, k as int),
        decreases to - k,
    {
        out.push(chars[k]);
        assert(chars@.subrange(from as int, k + 1) =~= chars@.subrange(from as int, k as int).push(
            chars@[k as int],
        ));
        k += 1;
    }
    out
}

/// `at` is the first position from `from` on at which `separator` stands in `s`.
pub open spec fn is_first_occurrence(s: Seq<char>, separator: Seq<char>, from: int, at: int) -> bool {
    &&& from <= at
    &&& occurs_at(s, separator, at)
    &&& forall|e: int| from <= e < at ==> !occurs_at(s, separator, e)
}

/// The pieces into which the occurrences of `separator` cut what stands in `s` from `from`
/// on.  The occurrences are taken from the left and do not overlap.
pub open spec fn split_from(s: Seq<char>, separator: Seq<char>, from: int) -> Seq<Seq<char>>
    decreases s.len() - from,
{
    if separator.len() > 0 && 0 <= from <= s.len() && exists|at: int|
        is_first_occurrence(s, separator, from, at) {
        let at = choose|at: int| is_first_occurrence(s, separator, from, at);
        seq![s.subrange(from, at)] + split_from(s, separator, at + separator.len())
    } else {
        seq![s.skip(from)]
    }
}

/// The pieces into which the occurrences of `separator` cut `s`.
pub open spec fn split(s: Seq<char>, separator: Seq<char>) -> Seq<Seq<char>> {
    split_from(s, separator, 0)
}

/// Cuts `text` at each occurrence of `separator`.
pub fn split_text(text: &str, separator: &str) -> (pieces: Vec<String>)
    requires
        separator@.len() > 0,
    ensures
        texts_of(pieces@) == split(text@, separator@),
        pieces@.len() >= 1,
{
    let chars = chars_of(text);
    let sep = chars_of(separator);
    let mut pieces: Vec<String> = Vec::new();
    let mut from: usize = 0;
    assert(texts_of(pieces@) + split_from(text@, separator@, 0) =~= split(text@, separator@));
    loop
        invariant_except_break
            texts_of(pieces@) + split_from(text@, separator@, from as int) == split(
                text@,
                separator@,
            ),
        invariant
            chars@ == text@,
            sep@ == separator@,
            sep@.len() > 0,
            from <= chars@.len(),
        ensures
            texts_of(pieces@) == split(text@, separator@),
            pieces@.len() >= 1,
        decreases chars@.len() - from,
    {
        let ghost before = texts_of(pieces@);
        match find_from(&chars, &sep, from) {
            Some(at) => {
                proof {
                    assert(is_first_occurrence(text@, separator@, from as int, at as int));
                    let chosen = choose|e: int|
                        is_first_occurrence(text@, separator@, from as int, e);
                    assert(chosen == at);
                    assert(at + sep@.len() <= chars@.len());
                }
                pieces.push(piece_of(&chars, from, at));
                proof {
                    let piece = text@.subrange(from as int, at as int);
                    assert(texts_of(pieces@) =~= before.push(piece));
                    assert(texts_of(pieces@) + split_from(text@, separator@, at + sep@.len())
                        =~= before + (seq![piece] + split_from(
                        text@,
                        separator@,
                        at + sep@.len(),
                    )));
                }
                assert(occurs_at(chars@, sep@, at as int));
                assert(at + sep.len() <= chars.len());
                from = at + sep.len();
            },
            None => {
                pieces.push(piece_of(&chars, from, chars.len()));
                proof {
                    let piece = text@.skip(from as int);
                    assert(text@.subrange(from as int, text@.len() as int) =~= piece);
                    assert(texts_of(pieces@) =~= before.push(piece));
                    assert(!exists|at: int|
                        is_first_occurrence(text@, separator@, from as int, at));
                    assert(texts_of(pieces@) =~= before + seq![piece]);
                }
                break ;
            },
        }
    }
    pieces
}

/// The characters that count as white space at the ends of a text.
pub open spec fn is_blank(c: char) -> bool {
    let n = c as u32;
    (9 <= n <= 13) || n == 0x20 || n == 0x85 || n == 0xa0 || n == 0x1680 || (0x2000 <= n <= 0x200a)
        || n == 0x2028 || n == 0x2029 || n == 0x202f || n == 0x205f || n == 0x3000
}

/// Decides whether a character counts as white space.
pub fn is_blank_char(c: char) -> (blank: bool)
    ensures
        blank == is_blank(c),
{
    let n = c as u32;
    (9 <= n && n <= 13) || n == 0x20 || n == 0x85 || n == 0xa0 || n == 0x1680 || (0x2000 <= n && n
        <= 0x200a) || n == 0x2028 || n == 0x2029 || n == 0x202f || n == 0x205f || n == 0x3000
}

/// The first position from `from` on that holds no white space.
pub open spec fn skip_blanks(s: Seq<char>, from: int) -> int
    decreases s.len() - from,
{
    if 0 <= from < s.len() && is_blank(s[from]) {
        skip_blanks(s, from + 1)
    } else {
        from
    }
}

/// The end of what stands before `to` once the white space at its end is dropped, but not
/// below `from`.
pub open spec fn drop_blanks(s: Seq<char>, from: int, to: int) -> int
    decreases to,
{
    if 0 <= from < to <= s.len() && is_blank(s[to - 1]) {
        drop_blanks(s, from, to - 1)
    } else {
        to
    }
}

/// `s` without the white space at its two ends.
pub open spec fn trimmed(s: Seq<char>) -> Seq<char> {
    let start = skip_blanks(s, 0);
    s.subrange(start, drop_blanks(s, start, s.len() as int))
}

/// `text` without the white space at its two ends.
pub fn trim_text(text: &str) -> (out: String)
    ensures
        out@ == trimmed(text@),
{
    let chars = chars_of(text);
    let mut start: usize = 0;
    while start < chars.len() && is_blank_char(chars[start])
        invariant
            start <= chars@.len(),
            skip_blanks(chars@, start as int) == skip_blanks(chars@, 0),
        decreases chars@.len() - start,
    {
        start += 1;
    }
    let mut end: usize = chars.len();
    while end > start && is_blank_char(chars[end - 1])
        invariant
            start <= end <= chars@.len(),
            drop_blanks(chars@, start as int, end as int) == drop_blanks(
                chars@,
                start as int,
                chars@.len() as int,
            ),
        decreases end,
    {
        end -= 1;
    }
    piece_of(&chars, start, end)
}

/// Whether `s` begins with `prefix`.
pub open spec fn starts_with(s: Seq<char>, prefix: Seq<char>) -> bool {
    prefix.len() <= s.len() && s.subrange(0, prefix.len() as int) == prefix
}

/// Whether `s` ends with `suffix`.
pub open spec fn ends_with(s: Seq<char>, suffix: Seq<char>) -> bool {
    suffix.len() <= s.len() && s.subrange(s.len() - suffix.len(), s.len() as int) == suffix
}

/// Decides whether `text` begins with `prefix`.
pub fn text_starts_with(text: &str, prefix: &str) -> (found: bool)
    ensures
        found == starts_with(text@, prefix@),
{
    let chars = chars_of(text);
    let start = chars_of(prefix);
    matches_at(&chars, &start, 0)
}

/// Decides whether `text` ends with `suffix`.
pub fn text_ends_with(text: &str, suffix: &str) -> (found: bool)
    ensures
        found == ends_with(text@, suffix@),
{
    let chars = chars_of(text);
    let end = chars_of(suffix);
    if end.len() > chars.len() {
        return false;
    }
    matches_at(&chars, &end, chars.len() - end.len())
}

/// Whether `a` comes before `b` in the order of the dictionary, character by character.
pub open spec fn text_less(a: Seq<char>, b: Seq<char>) -> bool
    decreases a.len(),
{
    if b.len() == 0 {
        false
    } else if a.len() == 0 {
        true
    } else if a[0] != b[0] {
        a[0] < b[0]
    } else {
        text_less(a.skip(1), b.skip(1))
    }
}

/// Decides whether `a` comes before `b` in the order of the dictionary.
pub fn text_before(a: &str, b: &str) -> (less: bool)
    ensures
        less == text_less(a@, b@),
{
    let x = chars_of(a);
    let y = chars_of(b);
    let mut k: usize = 0;
    assert(x@.skip(0) =~= x@ && y@.skip(0) =~= y@);
    while k < x.len() && k < y.len()
        invariant
            k <= x@.len(),
            k <= y@.len(),
            x@ == a@,
            y@ == b@,
            text_less(a@, b@) == text_less(x@.skip(k as int), y@.skip(k as int)),
        decreases x@.len() - k,
    {
        proof {
            let xs = x@.skip(k as int);
            let ys = y@.skip(k as int);
            assert(xs[0] == x@[k as int] && ys[0] == y@[k as int]);
            assert(xs.skip(1) =~= x@.skip(k as int + 1));
            assert(ys.skip(1) =~= y@.skip(k as int + 1));
        }
        if x[k] != y[k] {
            return x[k] < y[k];
        }
        k += 1;
    }
    k < y.len()
}

/// No text comes before itself, and of two texts at most one comes before the other.
pub proof fn lemma_text_less_asymmetric(a: Seq<char>, b: Seq<char>)
    ensures
        !(text_less(a, b) && text_less(b, a)),
    decreases a.len(),
{
    if a.len() > 0 && b.len() > 0 && a[0] == b[0] {
        lemma_text_less_asymmetric(a.skip(1), b.skip(1));
    }
}

/// If `b` does not come before `a`, and `c` does not come before `b`, then `c` does not
/// come before `a`.
pub proof fn lemma_text_not_less_transitive(a: Seq<char>, b: Seq<char>, c: Seq<char>)
    requires
        !text_less(b, a),
        !text_less(c, b),
    ensures
        !text_less(c, a),
    decreases a.len(),
{
    if a.len() > 0 && b.len() > 0 && c.len() > 0 {
        if a[0] == b[0] && b[0] == c[0] {
            lemma_text_not_less_transitive(a.skip(1), b.skip(1), c.skip(1));
        }
    }
}

/// If `a` comes before `b` and `b` before `c`, then `a` comes before `c`.
pub proof fn lemma_text_less_transitive(a: Seq<char>, b: Seq<char>, c: Seq<char>)
    requires
        text_less(a, b),
        text_less(b, c),
    ensures
        text_less(a, c),
    decreases a.len(),
{
    if a.len() > 0 && b.len() > 0 && c.len() > 0 {
        if a[0] == b[0] && b[0] == c[0] {
            lemma_text_less_transitive(a.skip(1), b.skip(1), c.skip(1));
        }
    }
}

/// Of two different texts one comes before the other.
pub proof fn lemma_text_less_total(a: Seq<char>, b: Seq<char>)
    requires
        !text_less(a, b),
        !text_less(b, a),
    ensures
        a == b,
    decreases a.len(),
{
    if a.len() > 0 && b.len() > 0 {
        lemma_text_less_total(a.skip(1), b.skip(1));
        assert(a =~= seq![a[0]] + a.skip(1));
        assert(b =~= seq![b[0]] + b.skip(1));
    } else {
        assert(a =~= b);
    }
}

} // verus!