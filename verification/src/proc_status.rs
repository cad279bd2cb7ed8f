//! Reading the resident set size out of the text of `/proc/self/status`.
//!
//! The text is read line by line; the first line that starts with `VmRSS:`
//! and has a second whitespace-separated field decides: that field, read as
//! an unsigned decimal number, is the size in kilobytes (0 when it is not a
//! number that fits a `usize`).  Without such a line the size is 0.

use vstd::prelude::*;
use vstd::string::*;
use crate::decimal::{decimal, law_decimal_reads_back};

verus! {

/// `char::is_whitespace`: the Unicode `White_Space` characters.
pub open spec fn is_ws(c: char) -> bool {
    let u = c as u32;
    ||| 0x09 <= u <= 0x0D
    ||| u == 0x20
    ||| u == 0x85
    ||| u == 0xA0
    ||| u == 0x1680
    ||| 0x2000 <= u <= 0x200A
    ||| u == 0x2028
    ||| u == 0x2029
    ||| u == 0x202F
    ||| u == 0x205F
    ||| u == 0x3000
}

/// Index of the first character at or after `i` that is not whitespace.
pub open spec fn ws_end(s: Seq<char>, i: int) -> int
    decreases s.len() - i,
{
    if 0 <= i < s.len() && is_ws(s[i]) { ws_end(s, i + 1) } else { i }
}

/// Index of the first whitespace character at or after `i`.
pub open spec fn word_end(s: Seq<char>, i: int) -> int
    decreases s.len() - i,
{
    if 0 <= i < s.len() && !is_ws(s[i]) { word_end(s, i + 1) } else { i }
}

/// The second whitespace-separated field of a line, if it has one.
pub open spec fn second_field(line: Seq<char>) -> Option<Seq<char>> {
    let a = ws_end(line, 0);
    let c = ws_end(line, word_end(line, a));
    if a >= line.len() || c >= line.len() {
        None
    } else {
        Some(line.subrange(c, word_end(line, c)))
    }
}

/// An ASCII decimal digit.
pub open spec fn is_digit(c: char) -> bool {
    '0' <= c <= '9'
}

/// The value of a string of decimal digits.
pub open spec fn digits_value(d: Seq<char>) -> nat
    decreases d.len(),
{
    if d.len() == 0 {
        0
    } else {
        digits_value(d.drop_last()) * 10 + ((d.last() as u32) - 48) as nat
    }
}

/// The text after an optional leading `+` (a lone `+` is kept).
pub open spec fn digits_part(t: Seq<char>) -> Seq<char> {
    if t.len() > 1 && t[0] == '+' { t.drop_first() } else { t }
}

/// `str::parse::<usize>`: an optional `+`, then one or more decimal digits
/// whose value fits a `usize`.
pub open spec fn parse_usize(t: Seq<char>) -> Option<nat> {
    let d = digits_part(t);
    if d.len() > 0 && (forall|k: int| 0 <= k < d.len() ==> is_digit(#[trigger] d[k]))
        && digits_value(d) <= usize::MAX {
        Some(digits_value(d))
    } else {
        None
    }
}

/// What one line says of the resident set size, if it is the line that
/// decides.
pub open spec fn rss_of_line(line: Seq<char>) -> Option<nat> {
    if line.len() >= 6 && line.take(6) == seq!['V', 'm', 'R', 'S', 'S', ':'] && second_field(line) is Some {
        Some(match parse_usize(second_field(line)->0) {
            Some(v) => v,
            None => 0,
        })
    } else {
        None
    }
}

/// Index of the first line feed at or after `i`, or the end of the text.
pub open spec fn line_end(s: Seq<char>, i: int) -> int
    decreases s.len() - i,
{
    if 0 <= i < s.len() && s[i] != '\n' { line_end(s, i + 1) } else { i }
}

/// The resident set size stated by the text from index `i` on.
pub open spec fn rss_from(s: Seq<char>, i: int) -> nat
    decreases s.len() - i,
{
    if i < 0 || i >= s.len() {
        0
    } else {
        let e = line_end(s, i);
        proof {
            lemma_line_end_bounds(s, i);
        }
        if rss_of_line(s.subrange(i, e)) is Some {
            rss_of_line(s.subrange(i, e))->0
        } else if e < s.len() {
            rss_from(s, e + 1)
        } else {
            0
        }
    }
}

/// The end of a line lies between its start and the end of the text.
pub proof fn lemma_line_end_bounds(s: Seq<char>, i: int)
    requires
        0 <= i <= s.len(),
    ensures
        i <= line_end(s, i) <= s.len(),
    decreases s.len() - i,
{
    if i < s.len() && s[i] != '\n' {
        lemma_line_end_bounds(s, i + 1);
    }
}

} // verus!

verus! {

fn is_ws_exec(c: char) -> (r: bool)
    ensures
        r == is_ws(c),
{
    let u = c as u32;
    (0x09 <= u && u <= 0x0D) || u == 0x20 || u == 0x85 || u == 0xA0 || u == 0x1680
        || (0x2000 <= u && u <= 0x200A) || u == 0x2028 || u == 0x2029 || u == 0x202F || u == 0x205F
        || u == 0x3000
}

/// The characters of a string.
fn chars_of(text: &str) -> (r: Vec<char>)
    ensures
        r@ == text@,
{
    let n = text.unicode_len();
    let mut r: Vec<char> = Vec::new();
    let mut i: usize = 0;
    while i < n
        invariant
            i <= n,
            n == text@.len(),
            r@ == text@.take(i as int),
        decreases n - i,
    {
        r.push(text.get_char(i));
        i = i + 1;
        assert(r@ =~= text@.take(i as int));
    }
    assert(text@.take(n as int) =~= text@);
    r
}

/// End of the whitespace run in `chars[a..b]` starting at `from`.
fn skip_ws(chars: &Vec<char>, a: usize, b: usize, from: usize) -> (r: usize)
    requires
        a <= from <= b <= chars.len(),
    ensures
        from <= r <= b,
        r - a == ws_end(chars@.subrange(a as int, b as int), from - a),
{
    let ghost line = chars@.subrange(a as int, b as int);
    let mut k = from;
    while k < b && is_ws_exec(chars[k])
        invariant
            from <= k <= b <= chars.len(),
            a <= from,
            line == chars@.subrange(a as int, b as int),
            ws_end(line, from - a) == ws_end(line, k - a),
        decreases b - k,
    {
        assert(line[k - a] == chars@[k as int]);
        k = k + 1;
    }
    proof {
        if k < b {
            assert(line[k - a] == chars@[k as int]);
        }
    }
    k
}

/// End of the non-whitespace run in `chars[a..b]` starting at `from`.
fn skip_word(chars: &Vec<char>, a: usize, b: usize, from: usize) -> (r: usize)
    requires
        a <= from <= b <= chars.len(),
    ensures
        from <= r <= b,
        r - a == word_end(chars@.subrange(a as int, b as int), from - a),
{
    let ghost line = chars@.subrange(a as int, b as int);
    let mut k = from;
    while k < b && !is_ws_exec(chars[k])
        invariant
            from <= k <= b <= chars.len(),
            a <= from,
            line == chars@.subrange(a as int, b as int),
            word_end(line, from - a) == word_end(line, k - a),
        decreases b - k,
    {
        assert(line[k - a] == chars@[k as int]);
        k = k + 1;
    }
    proof {
        if k < b {
            assert(line[k - a] == chars@[k as int]);
        }
    }
    k
}

/// Digit values never shrink when digits are appended.
proof fn lemma_digits_prefix(d: Seq<char>, m: int, n: int)
    requires
        0 <= m <= n <= d.len(),
        forall|k: int| 0 <= k < d.len() ==> is_digit(#[trigger] d[k]),
    ensures
        digits_value(d.subrange(0, m)) <= digits_value(d.subrange(0, n)),
    decreases n - m,
{
    if m < n {
        lemma_digits_prefix(d, m, n - 1);
        assert(d.subrange(0, n).drop_last() =~= d.subrange(0, n - 1));
    }
}

/// `str::parse::<usize>` of `chars[a..b]`, with 0 for anything that is not
/// such a number.
fn parse_field(chars: &Vec<char>, a: usize, b: usize) -> (r: usize)
    requires
        a <= b <= chars.len(),
    ensures
        r == match parse_usize(chars@.subrange(a as int, b as int)) {
            Some(v) => v,
            None => 0,
        },
{
    let ghost t = chars@.subrange(a as int, b as int);
    let mut start = a;
    if b - a > 1 && chars[a] == '+' {
        start = a + 1;
    }
    let ghost d = chars@.subrange(start as int, b as int);
    proof {
        if b - a > 0 {
            assert(t[0] == chars@[a as int]);
        }
        if b - a > 1 && t[0] == '+' {
            assert(t.drop_first() =~= d);
        } else {
            assert(t =~= d);
        }
    }
    if start == b {
        return 0;
    }
    // Every character must be a digit.
    let mut k = start;
    while k < b
        invariant
            start <= k <= b <= chars.len(),
            d == chars@.subrange(start as int, b as int),
            d == digits_part(t),
            t == chars@.subrange(a as int, b as int),
            forall|q: int| 0 <= q < k - start ==> is_digit(#[trigger] d[q]),
        decreases b - k,
    {
        let c = chars[k];
        assert(d[k - start] == c);
        if !('0' <= c && c <= '9') {
            assert(!is_digit(d[k - start]));
            assert(!(forall|q: int| 0 <= q < d.len() ==> is_digit(#[trigger] d[q])));
            return 0;
        }
        assert(is_digit(d[k - start]));
        k = k + 1;
    }
    let mut value: usize = 0;
    let mut k = start;
    while k < b
        invariant
            start <= k <= b <= chars.len(),
            d == chars@.subrange(start as int, b as int),
            d == digits_part(t),
            t == chars@.subrange(a as int, b as int),
            forall|q: int| 0 <= q < d.len() ==> is_digit(#[trigger] d[q]),
            value == digits_value(d.subrange(0, k - start)),
        decreases b - k,
    {
        proof {
            assert(d.subrange(0, k - start + 1).drop_last() =~= d.subrange(0, k - start));
            assert(d.subrange(0, k - start + 1).last() == d[k - start]);
            assert(d[k - start] == chars@[k as int]);
            assert(is_digit(d[k - start]));
        }
        let digit = (chars[k] as u32 - 48) as usize;
        assert(digits_value(d.subrange(0, k - start + 1)) == value * 10 + digit);
        match value.checked_mul(10) {
            Some(tens) => match tens.checked_add(digit) {
                Some(next) => {
                    value = next;
                },
                None => {
                    proof {
                        lemma_digits_prefix(d, k - start + 1, d.len() as int);
                        assert(d.subrange(0, d.len() as int) =~= d);
                    }
                    return 0;
                },
            },
            None => {
                proof {
                    lemma_digits_prefix(d, k - start + 1, d.len() as int);
                    assert(d.subrange(0, d.len() as int) =~= d);
                }
                return 0;
            },
        }
        k = k + 1;
    }
    proof {
        assert(d.subrange(0, d.len() as int) =~= d);
    }
    value
}

/// What the line `chars[a..b]` says of the resident set size.
fn line_rss(chars: &Vec<char>, a: usize, b: usize) -> (r: Option<usize>)
    requires
        a <= b <= chars.len(),
    ensures
        r matches Some(v) ==> rss_of_line(chars@.subrange(a as int, b as int)) == Some(v as nat),
        r is None ==> rss_of_line(chars@.subrange(a as int, b as int)) is None,
{
    let ghost line = chars@.subrange(a as int, b as int);
    if b - a < 6 || chars[a] != 'V' || chars[a + 1] != 'm' || chars[a + 2] != 'R' || chars[a + 3] != 'S'
        || chars[a + 4] != 'S' || chars[a + 5] != ':' {
        proof {
            if line.len() >= 6 && line.take(6) == seq!['V', 'm', 'R', 'S', 'S', ':'] {
                assert(line.take(6)[0] == line[0] && line.take(6)[1] == line[1] && line.take(6)[2] == line[2]);
                assert(line.take(6)[3] == line[3] && line.take(6)[4] == line[4] && line.take(6)[5] == line[5]);
            }
        }
        return None;
    }
    proof {
        assert(line.take(6) =~= seq!['V', 'm', 'R', 'S', 'S', ':']);
    }
    let first = skip_ws(chars, a, b, a);
    if first == b {
        return None;
    }
    let after_first = skip_word(chars, a, b, first);
    let second = skip_ws(chars, a, b, after_first);
    if second == b {
        return None;
    }
    let second_end = skip_word(chars, a, b, second);
    proof {
        assert(chars@.subrange(second as int, second_end as int)
            =~= line.subrange(second - a, second_end - a));
    }
    Some(parse_field(chars, second, second_end))
}

/// Index of the first line feed in `chars` at or after `from`, or the end.
fn find_line_end(chars: &Vec<char>, from: usize) -> (r: usize)
    requires
        from <= chars.len(),
    ensures
        r == line_end(chars@, from as int),
        from <= r <= chars.len(),
{
    let mut k = from;
    while k < chars.len() && chars[k] != '\n'
        invariant
            from <= k <= chars.len(),
            line_end(chars@, from as int) == line_end(chars@, k as int),
        decreases chars.len() - k,
    {
        k = k + 1;
    }
    k
}

/// The resident set size in kilobytes stated by the text of
/// `/proc/self/status` (0 when the text states none).
pub fn vm_rss_kb(status: &str) -> (r: usize)
    ensures
        r == rss_from(status@, 0),
{
    let chars = chars_of(status);
    let mut start: usize = 0;
    while start < chars.len()
        invariant
            start <= chars.len(),
            chars@ == status@,
            rss_from(chars@, 0) == rss_from(chars@, start as int),
        decreases chars.len() - start,
    {
        let end = find_line_end(&chars, start);
        match line_rss(&chars, start, end) {
            Some(v) => {
                return v;
            },
            None => {},
        }
        if end == chars.len() {
            return 0;
        }
        start = end + 1;
    }
    0
}


/// Reading a number back: the decimal text of every number that fits a
/// `usize` parses to that number, so every digit `'0'..='9'` is accepted.
pub proof fn law_parse_reads_decimal(n: nat)
    requires
        n <= usize::MAX,
    ensures
        parse_usize(decimal(n)) == Some(n),
{
    law_decimal_reads_back(n);
    let d = decimal(n);
    assert(d[0] != '+');
    assert(digits_part(d) == d);
    assert forall|k: int| 0 <= k < d.len() implies is_digit(#[trigger] d[k]) by {
        assert('0' <= d[k] <= '9');
    }
}


/// A line runs up to the first line feed.
proof fn lemma_line_end_at(s: Seq<char>, i: int, j: int)
    requires
        0 <= i <= j <= s.len(),
        forall|k: int| i <= k < j ==> #[trigger] s[k] != '\n',
        j == s.len() || s[j] == '\n',
    ensures
        line_end(s, i) == j,
    decreases j - i,
{
    if i < j {
        lemma_line_end_at(s, i + 1, j);
    }
}

/// Whitespace runs up to the first other character.
proof fn lemma_ws_end_at(s: Seq<char>, i: int, j: int)
    requires
        0 <= i <= j <= s.len(),
        forall|k: int| i <= k < j ==> is_ws(#[trigger] s[k]),
        j == s.len() || !is_ws(s[j]),
    ensures
        ws_end(s, i) == j,
    decreases j - i,
{
    if i < j {
        lemma_ws_end_at(s, i + 1, j);
    }
}

/// A word runs up to the first whitespace character.
proof fn lemma_word_end_at(s: Seq<char>, i: int, j: int)
    requires
        0 <= i <= j <= s.len(),
        forall|k: int| i <= k < j ==> !is_ws(#[trigger] s[k]),
        j == s.len() || is_ws(s[j]),
    ensures
        word_end(s, i) == j,
    decreases j - i,
{
    if i < j {
        lemma_word_end_at(s, i + 1, j);
    }
}

/// Line ends in text after a prefix are those of the text itself, shifted.
proof fn lemma_line_end_shift(a: Seq<char>, b: Seq<char>, i: int)
    requires
        0 <= i <= b.len(),
    ensures
        line_end(a + b, a.len() + i) == a.len() + line_end(b, i),
    decreases b.len() - i,
{
    if i < b.len() {
        assert((a + b)[a.len() + i] == b[i]);
        if b[i] != '\n' {
            lemma_line_end_shift(a, b, i + 1);
        }
    }
}

/// What the text says from a position after a prefix is what the rest says.
proof fn lemma_rss_from_shift(a: Seq<char>, b: Seq<char>, i: int)
    requires
        0 <= i,
    ensures
        rss_from(a + b, a.len() + i) == rss_from(b, i),
    decreases b.len() - i,
{
    let s = a + b;
    if i < b.len() {
        lemma_line_end_shift(a, b, i);
        lemma_line_end_bounds(b, i);
        let e = line_end(b, i);
        assert(s.subrange(a.len() + i, a.len() + e) =~= b.subrange(i, e));
        if e < b.len() {
            lemma_rss_from_shift(a, b, e + 1);
            assert(a.len() + e + 1 == a.len() + (e + 1));
        }
    }
}

/// A line that does not start with `VmRSS:` says nothing: the size is what
/// the following lines state.
pub proof fn law_other_line_skipped(line: Seq<char>, rest: Seq<char>)
    requires
        forall|k: int| 0 <= k < line.len() ==> #[trigger] line[k] != '\n',
        !(line.len() >= 6 && line.take(6) == seq!['V', 'm', 'R', 'S', 'S', ':']),
    ensures
        rss_from(line + seq!['\n'] + rest, 0) == rss_from(rest, 0),
{
    let s = line + seq!['\n'] + rest;
    let head = line + seq!['\n'];
    assert(s == head + rest);
    lemma_line_end_at(s, 0, line.len() as int);
    assert(s.subrange(0, line.len() as int) =~= line);
    lemma_rss_from_shift(head, rest, 0);
    assert(head.len() + 0 == line.len() + 1);
}

/// The `VmRSS:` line decides: after the label, whitespace and then the
/// decimal digits of a number that fits a `usize` (followed by whitespace,
/// such as ` kB`, or by the end of the line), that number is the size.
pub proof fn law_vm_rss_line_decides(w: Seq<char>, n: nat, tail: Seq<char>, rest: Seq<char>)
    requires
        n <= usize::MAX,
        w.len() > 0,
        forall|k: int| 0 <= k < w.len() ==> is_ws(#[trigger] w[k]) && w[k] != '\n',
        tail.len() == 0 || is_ws(tail[0]),
        forall|k: int| 0 <= k < tail.len() ==> #[trigger] tail[k] != '\n',
        rest.len() == 0 || rest[0] == '\n',
    ensures
        rss_from(seq!['V', 'm', 'R', 'S', 'S', ':'] + w + decimal(n) + tail + rest, 0) == n,
{
    let h = seq!['V', 'm', 'R', 'S', 'S', ':'];
    let d = decimal(n);
    law_decimal_reads_back(n);
    law_parse_reads_decimal(n);
    let line = h + w + d + tail;
    let s = line + rest;
    let c: int = 6 + w.len() as int;
    let f: int = c + d.len() as int;
    assert forall|k: int| 0 <= k < line.len() implies #[trigger] line[k] != '\n' by {
        if k < 6 {
        } else if k < c {
            assert(line[k] == w[k - 6]);
        } else if k < f {
            assert(line[k] == d[k - c]);
        } else {
            assert(line[k] == tail[k - f]);
        }
    }
    assert forall|k: int| 0 <= k < line.len() implies #[trigger] s[k] != '\n' by {
        assert(s[k] == line[k]);
    }
    if rest.len() > 0 {
        assert(s[line.len() as int] == rest[0]);
    }
    lemma_line_end_at(s, 0, line.len() as int);
    assert(s.subrange(0, line.len() as int) =~= line);
    assert(line.take(6) =~= h);
    // The label is one word, then whitespace, then the digits.
    assert(!is_ws(line[0]));
    lemma_ws_end_at(line, 0, 0);
    assert forall|k: int| 0 <= k < 6 implies !is_ws(#[trigger] line[k]) by {}
    assert(line[6] == w[0]);
    lemma_word_end_at(line, 0, 6);
    assert forall|k: int| 6 <= k < c implies is_ws(#[trigger] line[k]) by {
        assert(line[k] == w[k - 6]);
    }
    assert(line[c] == d[0]);
    lemma_ws_end_at(line, 6, c);
    assert forall|k: int| c <= k < f implies !is_ws(#[trigger] line[k]) by {
        assert(line[k] == d[k - c]);
        assert('0' <= d[k - c] <= '9');
    }
    if tail.len() > 0 {
        assert(line[f] == tail[0]);
    }
    lemma_word_end_at(line, c, f);
    assert(line.subrange(c, f) =~= d);
    assert(second_field(line) == Some(d));
    assert(rss_of_line(line) == Some(n));
}

} // verus!
