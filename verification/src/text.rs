//! Character classes and string building blocks shared by the parsers and renderers.
//!
//! Text is modelled as `Seq<char>`, the view of `str` and `String`.
use vstd::prelude::*;

verus! {

pub assume_specification[ String::push ](string: &mut String, ch: char)
    ensures
        final(string)@ == old(string)@.push(ch),
;

/// The Unicode general category Cc, which is what `char::is_control` tests.
pub open spec fn is_control(c: char) -> bool {
    c <= '\u{1f}' || ('\u{7f}' <= c && c <= '\u{9f}')
}

/// The Unicode White_Space property, which is what `char::is_whitespace` tests.
pub open spec fn is_whitespace(c: char) -> bool {
    ||| ('\u{9}' <= c && c <= '\u{d}')
    ||| c == ' '
    ||| c == '\u{85}'
    ||| c == '\u{a0}'
    ||| c == '\u{1680}'
    ||| ('\u{2000}' <= c && c <= '\u{200a}')
    ||| c == '\u{2028}'
    ||| c == '\u{2029}'
    ||| c == '\u{202f}'
    ||| c == '\u{205f}'
    ||| c == '\u{3000}'
}

pub open spec fn is_ascii_digit(c: char) -> bool {
    '0' <= c && c <= '9'
}

pub open spec fn is_ascii_upper(c: char) -> bool {
    'A' <= c && c <= 'Z'
}

pub open spec fn is_ascii_lower(c: char) -> bool {
    'a' <= c && c <= 'z'
}

pub open spec fn is_ascii_alphanumeric(c: char) -> bool {
    is_ascii_digit(c) || is_ascii_upper(c) || is_ascii_lower(c)
}

pub open spec fn is_ascii_hexdigit(c: char) -> bool {
    is_ascii_digit(c) || ('a' <= c && c <= 'f') || ('A' <= c && c <= 'F')
}

/// What `char::to_ascii_lowercase` gives.
pub open spec fn to_ascii_lower(c: char) -> char {
    if is_ascii_upper(c) {
        ((c as u32) + 32) as char
    } else {
        c
    }
}

/// What `str::to_ascii_lowercase` gives.
pub open spec fn ascii_lower(s: Seq<char>) -> Seq<char> {
    s.map_values(|c: char| to_ascii_lower(c))
}

pub open spec fn no_control(s: Seq<char>) -> bool {
    forall|i: int| 0 <= i < s.len() ==> !is_control(#[trigger] s[i])
}

/// `s.trim() == s`: no leading or trailing white space.
pub open spec fn is_trimmed(s: Seq<char>) -> bool {
    s.len() == 0 || (!is_whitespace(s[0]) && !is_whitespace(s.last()))
}

pub open spec fn has_prefix(s: Seq<char>, p: Seq<char>) -> bool {
    p.len() <= s.len() && s.take(p.len() as int) == p
}

pub open spec fn occurs_at(s: Seq<char>, p: Seq<char>, i: int) -> bool {
    0 <= i && i + p.len() <= s.len() && s.subrange(i, i + p.len()) == p
}

/// `p` is a substring of `s`.
pub open spec fn contains_seq(s: Seq<char>, p: Seq<char>) -> bool {
    exists|i: int| occurs_at(s, p, i)
}

/// The character of the digit `d`, in lower-case hexadecimal.
pub open spec fn digit_char(d: nat) -> char {
    if d < 10 {
        (d + 48) as char
    } else {
        (d + 87) as char
    }
}

/// The decimal numeral of `n`, as `Display` writes an unsigned integer.
pub open spec fn decimal(n: nat) -> Seq<char>
    decreases n,
{
    if n < 10 {
        seq![digit_char(n)]
    } else {
        decimal(n / 10).push(digit_char(n % 10))
    }
}

/// The lower-case hexadecimal numeral of `n`, as `{:x}` writes an unsigned integer.
pub open spec fn hex_lower(n: nat) -> Seq<char>
    decreases n,
{
    if n < 16 {
        seq![digit_char(n)]
    } else {
        hex_lower(n / 16).push(digit_char(n % 16))
    }
}

pub open spec fn all_digits(s: Seq<char>) -> bool {
    forall|i: int| 0 <= i < s.len() ==> is_ascii_digit(#[trigger] s[i])
}

/// The value of a run of decimal digits.
pub open spec fn digits_value(s: Seq<char>) -> nat
    decreases s.len(),
{
    if s.len() == 0 {
        0
    } else {
        digits_value(s.drop_last()) * 10 + ((s.last() as int) - 48) as nat
    }
}

/// The digits that `str::parse` reads for an unsigned integer: an optional `+`, then the rest.
pub open spec fn unsigned_digits(s: Seq<char>) -> Seq<char> {
    if s.len() > 0 && s[0] == '+' {
        s.drop_first()
    } else {
        s
    }
}

/// What `str::parse` gives for an unsigned integer type whose largest value is `max`.
pub open spec fn parse_unsigned(s: Seq<char>, max: nat) -> Option<nat> {
    let t = unsigned_digits(s);
    if t.len() > 0 && all_digits(t) && digits_value(t) <= max {
        Some(digits_value(t))
    } else {
        None
    }
}

pub fn char_is_control(c: char) -> (r: bool)
    ensures
        r == is_control(c),
{
    c <= '\u{1f}' || ('\u{7f}' <= c && c <= '\u{9f}')
}

pub fn char_is_whitespace(c: char) -> (r: bool)
    ensures
        r == is_whitespace(c),
{
    ('\u{9}' <= c && c <= '\u{d}') || c == ' ' || c == '\u{85}' || c == '\u{a0}' || c == '\u{1680}'
        || ('\u{2000}' <= c && c <= '\u{200a}') || c == '\u{2028}' || c == '\u{2029}' || c
        == '\u{202f}' || c == '\u{205f}' || c == '\u{3000}'
}

pub fn char_is_ascii_alphanumeric(c: char) -> (r: bool)
    ensures
        r == is_ascii_alphanumeric(c),
{
    ('0' <= c && c <= '9') || ('A' <= c && c <= 'Z') || ('a' <= c && c <= 'z')
}

pub fn char_is_ascii_hexdigit(c: char) -> (r: bool)
    ensures
        r == is_ascii_hexdigit(c),
{
    ('0' <= c && c <= '9') || ('a' <= c && c <= 'f') || ('A' <= c && c <= 'F')
}

pub fn char_to_ascii_lower(c: char) -> (r: char)
    ensures
        r == to_ascii_lower(c),
{
    if 'A' <= c && c <= 'Z' {
        ((c as u8) + 32) as char
    } else {
        c
    }
}

/// The characters of `s`.
pub fn chars_of(s: &str) -> (out: Vec<char>)
    ensures
        out@ == s@,
{
    let mut out: Vec<char> = Vec::new();
    for c in it: s.chars()
        invariant
            out@ == it.seq().take(it.index() as int),
    {
        out.push(c);
    }
    out
}

/// The string of the characters in `v`.
pub fn string_of(v: &[char]) -> (out: String)
    ensures
        out@ == v@,
{
    let mut out = String::new();
    let mut i: usize = 0;
    while i < v.len()
        invariant
            i <= v.len(),
            out@ == v@.take(i as int),
        decreases v.len() - i,
    {
        out.push(v[i]);
        i = i + 1;
        assert(out@ == v@.take(i as int));
    }
    assert(v@.take(v.len() as int) == v@);
    out
}

/// Appends the characters of `v` to `out`.
pub fn push_chars(out: &mut String, v: &[char])
    ensures
        final(out)@ == old(out)@ + v@,
{
    let mut i: usize = 0;
    while i < v.len()
        invariant
            i <= v.len(),
            out@ == old(out)@ + v@.take(i as int),
        decreases v.len() - i,
    {
        out.push(v[i]);
        i = i + 1;
        assert(out@ == old(out)@ + v@.take(i as int));
    }
    assert(v@.take(v.len() as int) == v@);
}

pub fn has_control(v: &[char]) -> (r: bool)
    ensures
        r == !no_control(v@),
{
    let mut i: usize = 0;
    while i < v.len()
        invariant
            i <= v.len(),
            forall|j: int| 0 <= j < i ==> !is_control(#[trigger] v@[j]),
        decreases v.len() - i,
    {
        if char_is_control(v[i]) {
            return true;
        }
        i = i + 1;
    }
    false
}

pub fn is_trimmed_chars(v: &[char]) -> (r: bool)
    ensures
        r == is_trimmed(v@),
{
    v.len() == 0 || (!char_is_whitespace(v[0]) && !char_is_whitespace(v[v.len() - 1]))
}

pub fn contains_char(v: &[char], c: char) -> (r: bool)
    ensures
        r == v@.contains(c),
{
    let mut i: usize = 0;
    while i < v.len()
        invariant
            i <= v.len(),
            forall|j: int| 0 <= j < i ==> v@[j] != c,
        decreases v.len() - i,
    {
        if v[i] == c {
            return true;
        }
        i = i + 1;
    }
    false
}

/// Whether `p` stands in `s` at position `at`.
pub fn occurs_at_exec(s: &[char], p: &[char], at: usize) -> (r: bool)
    ensures
        r == occurs_at(s@, p@, at as int),
{
    if at > s.len() || p.len() > s.len() - at {
        return false;
    }
    let mut i: usize = 0;
    while i < p.len()
        invariant
            i <= p.len(),
            at + p.len() <= s.len(),
            forall|j: int| 0 <= j < i ==> s@[at + j] == p@[j],
        decreases p.len() - i,
    {
        if s[at + i] != p[i] {
            assert(s@.subrange(at as int, at + p.len())[i as int] != p@[i as int]);
            return false;
        }
        i = i + 1;
    }
    assert(s@.subrange(at as int, at + p.len()) =~= p@);
    true
}

pub fn starts_with(s: &[char], p: &[char]) -> (r: bool)
    ensures
        r == has_prefix(s@, p@),
{
    let r = occurs_at_exec(s, p, 0);
    proof {
        if p@.len() <= s@.len() {
            assert(s@.subrange(0, p@.len() as int) == s@.take(p@.len() as int));
        }
    }
    r
}

/// The first position at which `p` stands in `s`, if any.
pub fn find_seq(s: &[char], p: &[char]) -> (r: Option<usize>)
    ensures
        r matches Some(i) ==> occurs_at(s@, p@, i as int) && forall|j: int|
            0 <= j < i ==> !occurs_at(s@, p@, j),
        r is None ==> !contains_seq(s@, p@),
{
    let mut i: usize = 0;
    loop
        invariant
            i <= s.len(),
            forall|j: int| 0 <= j < i ==> !occurs_at(s@, p@, j),
        ensures
            forall|j: int| 0 <= j <= s.len() ==> !occurs_at(s@, p@, j),
        decreases s.len() - i,
    {
        if occurs_at_exec(s, p, i) {
            return Some(i);
        }
        if i == s.len() {
            break;
        }
        i = i + 1;
    }
    assert(forall|j: int| 0 <= j <= s.len() ==> !occurs_at(s@, p@, j));
    assert forall|j: int| !occurs_at(s@, p@, j) by {
        if 0 <= j && j < i {
        }
    }
    None
}

pub fn contains_str(s: &[char], p: &[char]) -> (r: bool)
    ensures
        r == contains_seq(s@, p@),
{
    find_seq(s, p).is_some()
}

pub fn chars_equal(a: &[char], b: &[char]) -> (r: bool)
    ensures
        r == (a@ == b@),
{
    if a.len() != b.len() {
        return false;
    }
    let mut i: usize = 0;
    while i < a.len()
        invariant
            i <= a.len(),
            a.len() == b.len(),
            forall|j: int| 0 <= j < i ==> a@[j] == b@[j],
        decreases a.len() - i,
    {
        if a[i] != b[i] {
            return false;
        }
        i = i + 1;
    }
    assert(a@ =~= b@);
    true
}

pub fn str_equal(a: &str, b: &str) -> (r: bool)
    ensures
        r == (a@ == b@),
{
    let x = chars_of(a);
    let y = chars_of(b);
    chars_equal(x.as_slice(), y.as_slice())
}

/// What `to_ascii_lowercase` gives.
pub fn lowercase(v: &[char]) -> (out: Vec<char>)
    ensures
        out@ == ascii_lower(v@),
{
    let mut out: Vec<char> = Vec::new();
    let mut i: usize = 0;
    while i < v.len()
        invariant
            i <= v.len(),
            out@ == ascii_lower(v@.take(i as int)),
        decreases v.len() - i,
    {
        out.push(char_to_ascii_lower(v[i]));
        i = i + 1;
        assert(out@ =~= ascii_lower(v@.take(i as int)));
    }
    assert(v@.take(v.len() as int) == v@);
    out
}

/// `eq_ignore_ascii_case`.
pub fn eq_ignore_ascii_case(a: &[char], b: &[char]) -> (r: bool)
    ensures
        r == (ascii_lower(a@) == ascii_lower(b@)),
{
    let x = lowercase(a);
    let y = lowercase(b);
    chars_equal(x.as_slice(), y.as_slice())
}

pub fn digit_char_exec(d: u32) -> (c: char)
    requires
        d < 16,
    ensures
        c == digit_char(d as nat),
{
    if d < 10 {
        ((d as u8) + 48) as char
    } else {
        ((d as u8) + 87) as char
    }
}

/// Appends the decimal numeral of `n`.
pub fn push_decimal(out: &mut String, n: u128)
    ensures
        final(out)@ == old(out)@ + decimal(n as nat),
    decreases n,
{
    if n >= 10 {
        push_decimal(out, n / 10);
    }
    out.push(digit_char_exec((n % 10) as u32));
}

/// Appends the lower-case hexadecimal numeral of `n`.
pub fn push_hex(out: &mut String, n: u128)
    ensures
        final(out)@ == old(out)@ + hex_lower(n as nat),
    decreases n,
{
    if n >= 16 {
        push_hex(out, n / 16);
    }
    out.push(digit_char_exec((n % 16) as u32));
}

proof fn lemma_digits_value_prefix(s: Seq<char>, k: int)
    requires
        0 <= k <= s.len(),
    ensures
        digits_value(s.take(k)) <= digits_value(s),
    decreases s.len() - k,
{
    if k < s.len() {
        lemma_digits_value_prefix(s, k + 1);
        assert(s.take(k + 1).drop_last() == s.take(k));
    } else {
        assert(s.take(k) == s);
    }
}

/// What `str::parse` gives for an unsigned integer whose largest value is `max`.
pub fn parse_unsigned_exec(v: &[char], max: u128) -> (r: Option<u128>)
    ensures
        r matches Some(n) ==> parse_unsigned(v@, max as nat) == Some(n as nat),
        r is None ==> parse_unsigned(v@, max as nat) is None,
{
    let start: usize = if v.len() > 0 && v[0] == '+' {
        1
    } else {
        0
    };
    let ghost t = unsigned_digits(v@);
    assert(t == v@.subrange(start as int, v@.len() as int));
    if start >= v.len() {
        return None;
    }
    let mut value: u128 = 0;
    let mut i: usize = start;
    while i < v.len()
        invariant
            start <= i <= v.len(),
            t == v@.subrange(start as int, v@.len() as int),
            t == unsigned_digits(v@),
            value as nat == digits_value(t.take(i - start)),
            value <= max,
            all_digits(t.take(i - start)),
        decreases v.len() - i,
    {
        let c = v[i];
        assert(t[i - start] == c);
        assert(t.take(i - start + 1).drop_last() == t.take(i - start));
        assert(t.take(i - start + 1).last() == c);
        if !('0' <= c && c <= '9') {
            assert(!all_digits(t));
            return None;
        }
        let d = (c as u32 - 48) as u128;
        assert(d == (c as int) - 48);
        assert(digits_value(t.take(i - start + 1)) == digits_value(t.take(i - start)) * 10 + d);
        if d > max {
            proof {
                assert(digits_value(t.take(i - start + 1)) == value * 10 + d);
                lemma_digits_value_prefix(t, i - start + 1);
            }
            return None;
        }
        if value > (max - d) / 10 {
            proof {
                assert(digits_value(t.take(i - start + 1)) == value * 10 + d);
                assert(value * 10 + d > max) by (nonlinear_arith)
                    requires
                        value > (max - d) / 10,
                        d <= max,
                ;
                lemma_digits_value_prefix(t, i - start + 1);
            }
            return None;
        }
        assert(value * 10 + d <= max) by (nonlinear_arith)
            requires
                value <= (max - d) / 10,
                d <= max,
        ;
        value = value * 10 + d;
        i = i + 1;
        assert(all_digits(t.take(i - start)));
    }
    assert(t.take(i - start) == t);
    Some(value)
}


/// The position of the first `c` in `s`, or the length of `s` when there is none.
pub open spec fn find_char(s: Seq<char>, c: char) -> nat
    decreases s.len(),
{
    if s.len() == 0 {
        0
    } else if s[0] == c {
        0
    } else {
        1 + find_char(s.drop_first(), c)
    }
}

pub proof fn lemma_find_char_bound(s: Seq<char>, c: char)
    ensures
        find_char(s, c) <= s.len(),
    decreases s.len(),
{
    if s.len() > 0 {
        lemma_find_char_bound(s.drop_first(), c);
    }
}

pub proof fn lemma_find_char(s: Seq<char>, c: char, k: int)
    requires
        0 <= k <= s.len(),
        forall|j: int| 0 <= j < k ==> #[trigger] s[j] != c,
        k == s.len() || s[k] == c,
    ensures
        find_char(s, c) == k,
    decreases k,
{
    if k > 0 {
        let t = s.drop_first();
        assert forall|j: int| 0 <= j < k - 1 implies #[trigger] t[j] != c by {
            assert(t[j] == s[j + 1]);
        }
        if k - 1 < t.len() {
            assert(t[k - 1] == s[k]);
        }
        lemma_find_char(t, c, k - 1);
    }
}

/// The first position at or after `from` that holds `c`, or the length of `v`.
pub fn find_char_from(v: &[char], c: char, from: usize) -> (r: usize)
    requires
        from <= v.len(),
    ensures
        from <= r <= v.len(),
        find_char(v@.skip(from as int), c) == r - from,
{
    let mut i: usize = from;
    while i < v.len() && v[i] != c
        invariant
            from <= i <= v.len(),
            forall|j: int| from <= j < i ==> v@[j] != c,
        decreases v.len() - i,
    {
        i = i + 1;
    }
    proof {
        let t = v@.skip(from as int);
        assert forall|j: int| 0 <= j < i - from implies #[trigger] t[j] != c by {
            assert(t[j] == v@[j + from]);
        }
        if i < v.len() {
            assert(t[i - from] == v@[i as int]);
        }
        lemma_find_char(t, c, i - from);
    }
    i
}

/// The characters of `v` from `start` up to `end`.
pub fn slice_chars(v: &[char], start: usize, end: usize) -> (out: Vec<char>)
    requires
        start <= end <= v.len(),
    ensures
        out@ == v@.subrange(start as int, end as int),
{
    let mut out: Vec<char> = Vec::new();
    let mut i: usize = start;
    while i < end
        invariant
            start <= i <= end <= v.len(),
            out@ == v@.subrange(start as int, i as int),
        decreases end - i,
    {
        out.push(v[i]);
        i = i + 1;
        assert(out@ =~= v@.subrange(start as int, i as int));
    }
    out
}

pub open spec fn views(v: Seq<Vec<char>>) -> Seq<Seq<char>> {
    v.map_values(|x: Vec<char>| x@)
}

/// `s` without one trailing carriage return.
pub open spec fn strip_cr(s: Seq<char>) -> Seq<char> {
    if s.len() > 0 && s.last() == '\r' {
        s.drop_last()
    } else {
        s
    }
}

/// The lines of `s`, as `str::lines` gives them: split at `\n`, a `\r` before it removed,
/// and no empty line after a final line ending.
pub open spec fn lines(s: Seq<char>) -> Seq<Seq<char>>
    decreases s.len(),
{
    if s.len() == 0 {
        Seq::empty()
    } else {
        let k = find_char(s, '\n');
        if k == s.len() {
            seq![s]
        } else {
            proof {
                lemma_find_char_bound(s, '\n');
            }
            seq![strip_cr(s.take(k as int))] + lines(s.skip(k as int + 1))
        }
    }
}

/// The pieces of `s` between the occurrences of `c`, as `str::split` gives them.
pub open spec fn split_all(s: Seq<char>, c: char) -> Seq<Seq<char>>
    decreases s.len(),
{
    let k = find_char(s, c);
    if k == s.len() {
        seq![s]
    } else {
        proof {
            lemma_find_char_bound(s, c);
        }
        seq![s.take(k as int)] + split_all(s.skip(k as int + 1), c)
    }
}

/// At most `n` pieces of `s` split at `c`, the last holding the rest, as `str::splitn` gives
/// them.
pub open spec fn split_n(s: Seq<char>, c: char, n: nat) -> Seq<Seq<char>>
    decreases n,
{
    if n <= 1 {
        seq![s]
    } else {
        let k = find_char(s, c);
        if k == s.len() {
            seq![s]
        } else {
            seq![s.take(k as int)] + split_n(s.skip(k as int + 1), c, (n - 1) as nat)
        }
    }
}

/// The lines of `v`.
pub fn lines_of(v: &[char]) -> (out: Vec<Vec<char>>)
    ensures
        views(out@) == lines(v@),
{
    let mut out: Vec<Vec<char>> = Vec::new();
    let mut start: usize = 0;
    assert(v@.skip(0) == v@);
    while start < v.len()
        invariant
            start <= v.len(),
            views(out@) + lines(v@.skip(start as int)) == lines(v@),
        decreases v.len() - start,
    {
        let ghost rest = v@.skip(start as int);
        let ghost before = views(out@);
        let end = find_char_from(v, '\n', start);
        let mut line = slice_chars(v, start, end);
        assert(line@ == rest.take(end - start));
        if end < v.len() {
            if line.len() > 0 && line[line.len() - 1] == '\r' {
                line.pop();
            }
            assert(line@ == strip_cr(rest.take(end - start)));
            assert(rest.skip(end - start + 1) == v@.skip(end + 1));
            assert(lines(rest) == seq![line@] + lines(v@.skip(end + 1)));
            out.push(line);
            assert(views(out@) =~= before.push(line@));
            start = end + 1;
            assert(views(out@) + lines(v@.skip(start as int)) =~= before + lines(rest));
        } else {
            assert(rest.take(end - start) == rest);
            assert(lines(rest) == seq![line@]);
            out.push(line);
            assert(views(out@) =~= before.push(line@));
            start = end;
            assert(v@.skip(start as int).len() == 0);
            assert(views(out@) + lines(v@.skip(start as int)) =~= before + lines(rest));
        }
    }
    assert(v@.skip(start as int).len() == 0);
    assert(views(out@) + lines(v@.skip(start as int)) =~= views(out@));
    out
}

/// The pieces of `v` split at `c`, at most `limit` of them when a limit is given.
pub fn split_chars(v: &[char], c: char, limit: Option<usize>) -> (out: Vec<Vec<char>>)
    requires
        limit matches Some(n) ==> n >= 1,
    ensures
        views(out@) == match limit {
            Some(n) => split_n(v@, c, n as nat),
            None => split_all(v@, c),
        },
{
    let mut out: Vec<Vec<char>> = Vec::new();
    let mut start: usize = 0;
    assert(v@.skip(0) == v@);
    loop
        invariant
            start <= v.len(),
            limit matches Some(n) ==> out@.len() < n,
            views(out@) + match limit {
                Some(n) => split_n(v@.skip(start as int), c, (n - out@.len()) as nat),
                None => split_all(v@.skip(start as int), c),
            } == match limit {
                Some(n) => split_n(v@, c, n as nat),
                None => split_all(v@, c),
            },
        decreases v.len() - start,
    {
        let ghost rest = v@.skip(start as int);
        let ghost before = views(out@);
        let last_piece = match limit {
            Some(n) => out.len() + 1 == n,
            None => false,
        };
        let end = if last_piece {
            v.len()
        } else {
            find_char_from(v, c, start)
        };
        let piece = slice_chars(v, start, end);
        if end == v.len() {
            proof {
                assert(piece@ == rest);
                if !last_piece {
                    assert(find_char(rest, c) == rest.len());
                }
            }
            out.push(piece);
            assert(views(out@) =~= before.push(piece@));
            assert(views(out@) =~= before + seq![rest]);
            return out;
        }
        assert(piece@ == rest.take(end - start));
        assert(rest.skip(end - start + 1) == v@.skip(end + 1));
        out.push(piece);
        assert(views(out@) =~= before.push(piece@));
        start = end + 1;
        assert(views(out@) + match limit {
            Some(n) => split_n(v@.skip(start as int), c, (n - out@.len()) as nat),
            None => split_all(v@.skip(start as int), c),
        } =~= before + match limit {
            Some(n) => split_n(rest, c, (n - before.len()) as nat),
            None => split_all(rest, c),
        });
    }
}


/// The position of the first white-space character of `s`, or its length.
pub open spec fn ws_end(s: Seq<char>) -> nat
    decreases s.len(),
{
    if s.len() == 0 {
        0
    } else if is_whitespace(s[0]) {
        0
    } else {
        1 + ws_end(s.drop_first())
    }
}

pub proof fn lemma_ws_end(s: Seq<char>, k: int)
    requires
        0 <= k <= s.len(),
        forall|j: int| 0 <= j < k ==> !is_whitespace(#[trigger] s[j]),
        k == s.len() || is_whitespace(s[k]),
    ensures
        ws_end(s) == k,
    decreases k,
{
    if k > 0 {
        let t = s.drop_first();
        assert forall|j: int| 0 <= j < k - 1 implies !is_whitespace(#[trigger] t[j]) by {
            assert(t[j] == s[j + 1]);
        }
        if k - 1 < t.len() {
            assert(t[k - 1] == s[k]);
        }
        lemma_ws_end(t, k - 1);
    }
}

pub proof fn lemma_ws_end_bound(s: Seq<char>)
    ensures
        ws_end(s) <= s.len(),
        s.len() > 0 && !is_whitespace(s[0]) ==> ws_end(s) > 0,
    decreases s.len(),
{
    if s.len() > 0 {
        lemma_ws_end_bound(s.drop_first());
    }
}

/// The white-space separated words of `s`, as `str::split_whitespace` gives them.
pub open spec fn words(s: Seq<char>) -> Seq<Seq<char>>
    decreases s.len(),
{
    if s.len() == 0 {
        Seq::empty()
    } else if is_whitespace(s[0]) {
        words(s.drop_first())
    } else {
        proof {
            lemma_ws_end_bound(s);
        }
        seq![s.take(ws_end(s) as int)] + words(s.skip(ws_end(s) as int))
    }
}

/// The words of `ws` joined with `sep` between them.
pub open spec fn join(ws: Seq<Seq<char>>, sep: Seq<char>) -> Seq<char>
    decreases ws.len(),
{
    if ws.len() == 0 {
        Seq::empty()
    } else if ws.len() == 1 {
        ws[0]
    } else {
        join(ws.drop_last(), sep) + sep + ws.last()
    }
}

/// The words of `v`.
pub fn words_of(v: &[char]) -> (out: Vec<Vec<char>>)
    ensures
        views(out@) == words(v@),
{
    let mut out: Vec<Vec<char>> = Vec::new();
    let mut i: usize = 0;
    assert(v@.skip(0) == v@);
    while i < v.len()
        invariant
            i <= v.len(),
            views(out@) + words(v@.skip(i as int)) == words(v@),
        decreases v.len() - i,
    {
        let ghost rest = v@.skip(i as int);
        let ghost before = views(out@);
        if char_is_whitespace(v[i]) {
            assert(rest.drop_first() == v@.skip(i + 1));
            i = i + 1;
        } else {
            let mut j: usize = i;
            while j < v.len() && !char_is_whitespace(v[j])
                invariant
                    i <= j <= v.len(),
                    forall|m: int| i <= m < j ==> !is_whitespace(#[trigger] v@[m]),
                decreases v.len() - j,
            {
                j = j + 1;
            }
            proof {
                assert forall|m: int| 0 <= m < j - i implies !is_whitespace(#[trigger] rest[m]) by {
                    assert(rest[m] == v@[m + i]);
                }
                if j < v.len() {
                    assert(rest[j - i] == v@[j as int]);
                }
                lemma_ws_end(rest, j - i);
                assert(rest.skip(j - i) == v@.skip(j as int));
            }
            let word = slice_chars(v, i, j);
            assert(word@ == rest.take(j - i));
            out.push(word);
            assert(views(out@) =~= before.push(word@));
            i = j;
            assert(views(out@) + words(v@.skip(i as int)) =~= before + words(rest));
        }
    }
    assert(v@.skip(i as int).len() == 0);
    assert(views(out@) + words(v@.skip(i as int)) =~= views(out@));
    out
}

/// The words in `ws` joined with `sep`.
pub fn join_chars(ws: &Vec<Vec<char>>, sep: &[char]) -> (out: Vec<char>)
    ensures
        out@ == join(views(ws@), sep@),
{
    let mut out: Vec<char> = Vec::new();
    let mut i: usize = 0;
    while i < ws.len()
        invariant
            i <= ws.len(),
            out@ == join(views(ws@).take(i as int), sep@),
        decreases ws.len() - i,
    {
        let ghost before = out@;
        if i > 0 {
            let mut k: usize = 0;
            while k < sep.len()
                invariant
                    k <= sep.len(),
                    out@ == before + sep@.take(k as int),
                decreases sep.len() - k,
            {
                out.push(sep[k]);
                k = k + 1;
                assert(out@ =~= before + sep@.take(k as int));
            }
            assert(sep@.take(sep.len() as int) == sep@);
        }
        let ghost middle = out@;
        let w = &ws[i];
        let mut k: usize = 0;
        while k < w.len()
            invariant
                k <= w.len(),
                out@ == middle + w@.take(k as int),
            decreases w.len() - k,
        {
            out.push(w[k]);
            k = k + 1;
            assert(out@ =~= middle + w@.take(k as int));
        }
        assert(w@.take(w.len() as int) == w@);
        assert(views(ws@).take(i + 1).drop_last() =~= views(ws@).take(i as int));
        assert(views(ws@).take(i + 1).last() == w@);
        i = i + 1;
        if i == 1 {
            assert(out@ =~= join(views(ws@).take(i as int), sep@));
        } else {
            assert(out@ =~= join(views(ws@).take(i as int), sep@));
        }
    }
    assert(views(ws@).take(ws.len() as int) =~= views(ws@));
    out
}


/// `String::from_utf8`: the string of `bytes` when they are valid UTF-8.
#[verifier::external_body]
pub(crate) fn string_from_utf8(bytes: Vec<u8>) -> (r: Option<String>)
    ensures
        r is Some <==> vstd::utf8::valid_utf8(bytes@),
        r matches Some(s) ==> s@ == vstd::utf8::decode_utf8(bytes@),
{
    String::from_utf8(bytes).ok()
}

/// `s` split at its first `c`.
pub open spec fn split_once(s: Seq<char>, c: char) -> Option<(Seq<char>, Seq<char>)> {
    let k = find_char(s, c);
    if k == s.len() {
        None
    } else {
        Some((s.take(k as int), s.skip(k as int + 1)))
    }
}

pub fn split_once_exec(v: &[char], c: char) -> (r: Option<(Vec<char>, Vec<char>)>)
    ensures
        r is Some <==> split_once(v@, c) is Some,
        r matches Some((a, b)) ==> split_once(v@, c) == Some((a@, b@)),
{
    let k = find_char_from(v, c, 0);
    assert(v@.skip(0) == v@);
    if k == v.len() {
        return None;
    }
    let a = slice_chars(v, 0, k);
    let b = slice_chars(v, k + 1, v.len());
    assert(a@ == v@.take(k as int));
    assert(b@ == v@.skip(k as int + 1));
    Some((a, b))
}

/// The position of the last `c` in `s`, or -1 when there is none.
pub open spec fn rfind_char(s: Seq<char>, c: char) -> int
    decreases s.len(),
{
    if s.len() == 0 {
        -1
    } else if s.last() == c {
        s.len() - 1
    } else {
        rfind_char(s.drop_last(), c)
    }
}

pub proof fn lemma_rfind_char(s: Seq<char>, c: char, k: int)
    requires
        -1 <= k < s.len(),
        forall|j: int| k < j < s.len() ==> #[trigger] s[j] != c,
        k == -1 || s[k] == c,
    ensures
        rfind_char(s, c) == k,
    decreases s.len(),
{
    if s.len() > 0 && k < s.len() - 1 {
        let t = s.drop_last();
        assert forall|j: int| k < j < t.len() implies #[trigger] t[j] != c by {
            assert(t[j] == s[j]);
        }
        if k >= 0 {
            assert(t[k] == s[k]);
        }
        lemma_rfind_char(t, c, k);
    }
}

/// `s` split at its last `c`.
pub open spec fn rsplit_once(s: Seq<char>, c: char) -> Option<(Seq<char>, Seq<char>)> {
    let k = rfind_char(s, c);
    if k < 0 {
        None
    } else {
        Some((s.take(k), s.skip(k + 1)))
    }
}

pub fn rsplit_once_exec(v: &[char], c: char) -> (r: Option<(Vec<char>, Vec<char>)>)
    ensures
        r is Some <==> rsplit_once(v@, c) is Some,
        r matches Some((a, b)) ==> rsplit_once(v@, c) == Some((a@, b@)),
{
    let mut i: usize = v.len();
    while i > 0 && v[i - 1] != c
        invariant
            i <= v.len(),
            forall|j: int| i <= j < v.len() ==> v@[j] != c,
        decreases i,
    {
        i = i - 1;
    }
    proof {
        lemma_rfind_char(v@, c, i - 1);
    }
    if i == 0 {
        return None;
    }
    let a = slice_chars(v, 0, i - 1);
    let b = slice_chars(v, i, v.len());
    assert(a@ == v@.take(i - 1));
    assert(b@ == v@.skip(i as int));
    Some((a, b))
}

/// The position of the first `a` directly followed by `b`, or the length of `s`.
pub open spec fn find_pair(s: Seq<char>, a: char, b: char) -> nat
    decreases s.len(),
{
    if s.len() < 2 {
        s.len()
    } else if s[0] == a && s[1] == b {
        0
    } else {
        1 + find_pair(s.drop_first(), a, b)
    }
}

pub proof fn lemma_find_pair(s: Seq<char>, a: char, b: char, k: int)
    requires
        0 <= k <= s.len(),
        forall|j: int| 0 <= j && j + 1 < s.len() && j < k ==> !(#[trigger] s[j] == a && s[j + 1] == b),
        (k + 1 < s.len() && s[k] == a && s[k + 1] == b) || k == s.len(),
    ensures
        find_pair(s, a, b) == k,
    decreases s.len(),
{
    if s.len() >= 2 && k > 0 {
        let t = s.drop_first();
        assert(!(s[0] == a && s[1] == b));
        assert forall|j: int| 0 <= j && j + 1 < t.len() && j < k - 1 implies !(#[trigger] t[j] == a
            && t[j + 1] == b) by {
            assert(t[j] == s[j + 1] && t[j + 1] == s[j + 2]);
        }
        if k < s.len() {
            assert(t[k - 1] == s[k] && t[k] == s[k + 1]);
        }
        lemma_find_pair(t, a, b, k - 1);
    } else if s.len() < 2 && k > 0 {
        if k == 1 && s.len() == 1 {
        }
    }
}


/// The number of white-space characters that `s` starts with.
pub open spec fn leading_ws(s: Seq<char>) -> nat
    decreases s.len(),
{
    if s.len() == 0 || !is_whitespace(s[0]) {
        0
    } else {
        1 + leading_ws(s.drop_first())
    }
}

/// The number of white-space characters that `s` ends with.
pub open spec fn trailing_ws(s: Seq<char>) -> nat
    decreases s.len(),
{
    if s.len() == 0 || !is_whitespace(s.last()) {
        0
    } else {
        1 + trailing_ws(s.drop_last())
    }
}

/// `s` without leading and trailing white space, as `str::trim` gives it.
pub open spec fn trim(s: Seq<char>) -> Seq<char> {
    if leading_ws(s) >= s.len() {
        Seq::empty()
    } else {
        s.subrange(leading_ws(s) as int, s.len() - trailing_ws(s))
    }
}

pub proof fn lemma_leading_ws(s: Seq<char>, k: int)
    requires
        0 <= k <= s.len(),
        forall|j: int| 0 <= j < k ==> is_whitespace(#[trigger] s[j]),
        k == s.len() || !is_whitespace(s[k]),
    ensures
        leading_ws(s) == k,
    decreases k,
{
    if k > 0 {
        let t = s.drop_first();
        assert forall|j: int| 0 <= j < k - 1 implies is_whitespace(#[trigger] t[j]) by {
            assert(t[j] == s[j + 1]);
        }
        if k - 1 < t.len() {
            assert(t[k - 1] == s[k]);
        }
        lemma_leading_ws(t, k - 1);
    }
}

pub proof fn lemma_trailing_ws(s: Seq<char>, k: int)
    requires
        0 <= k <= s.len(),
        forall|j: int| s.len() - k <= j < s.len() ==> is_whitespace(#[trigger] s[j]),
        k == s.len() || !is_whitespace(s[s.len() - k - 1]),
    ensures
        trailing_ws(s) == k,
    decreases k,
{
    if k > 0 {
        let t = s.drop_last();
        assert forall|j: int| t.len() - (k - 1) <= j < t.len() implies is_whitespace(
            #[trigger] t[j],
        ) by {
            assert(t[j] == s[j]);
        }
        if k - 1 < t.len() {
            assert(t[t.len() - (k - 1) - 1] == s[s.len() - k - 1]);
        }
        lemma_trailing_ws(t, k - 1);
    }
}

/// `str::trim` on characters.
pub fn trim_chars(v: &[char]) -> (out: Vec<char>)
    ensures
        out@ == trim(v@),
{
    let mut a: usize = 0;
    while a < v.len() && char_is_whitespace(v[a])
        invariant
            a <= v.len(),
            forall|j: int| 0 <= j < a ==> is_whitespace(#[trigger] v@[j]),
        decreases v.len() - a,
    {
        a = a + 1;
    }
    proof {
        lemma_leading_ws(v@, a as int);
    }
    if a == v.len() {
        return Vec::new();
    }
    let mut b: usize = v.len();
    while b > a && char_is_whitespace(v[b - 1])
        invariant
            a < v.len(),
            a <= b <= v.len(),
            !is_whitespace(v@[a as int]),
            forall|j: int| b <= j < v.len() ==> is_whitespace(#[trigger] v@[j]),
        decreases b,
    {
        b = b - 1;
    }
    proof {
        lemma_trailing_ws(v@, v.len() - b);
    }
    slice_chars(v, a, b)
}

/// Appends the decimal numeral of a signed number.
pub fn push_signed_decimal(out: &mut String, n: i64)
    ensures
        final(out)@ == old(out)@ + if n < 0 {
            seq!['-'] + decimal((-n) as nat)
        } else {
            decimal(n as nat)
        },
{
    if n < 0 {
        out.push('-');
        let magnitude: u128 = (0i128 - (n as i128)) as u128;
        push_decimal(out, magnitude);
    } else {
        push_decimal(out, n as u128);
    }
}

/// Lexicographic order of character sequences, as `Ord` orders `str`.
pub open spec fn chars_lt(a: Seq<char>, b: Seq<char>) -> bool
    decreases a.len(),
{
    if b.len() == 0 {
        false
    } else if a.len() == 0 {
        true
    } else if a[0] != b[0] {
        a[0] < b[0]
    } else {
        chars_lt(a.drop_first(), b.drop_first())
    }
}

pub proof fn lemma_chars_lt_irreflexive(a: Seq<char>)
    ensures
        !chars_lt(a, a),
    decreases a.len(),
{
    if a.len() > 0 {
        lemma_chars_lt_irreflexive(a.drop_first());
    }
}

pub proof fn lemma_chars_lt_transitive(a: Seq<char>, b: Seq<char>, c: Seq<char>)
    requires
        chars_lt(a, b),
        chars_lt(b, c),
    ensures
        chars_lt(a, c),
    decreases a.len(),
{
    if a.len() > 0 && a[0] == b[0] && b[0] == c[0] {
        lemma_chars_lt_transitive(a.drop_first(), b.drop_first(), c.drop_first());
    }
}

pub proof fn lemma_chars_lt_total(a: Seq<char>, b: Seq<char>)
    ensures
        a == b || chars_lt(a, b) || chars_lt(b, a),
        !(chars_lt(a, b) && chars_lt(b, a)),
    decreases a.len(),
{
    if a.len() > 0 && b.len() > 0 && a[0] == b[0] {
        lemma_chars_lt_total(a.drop_first(), b.drop_first());
        if a.drop_first() == b.drop_first() {
            assert(a =~= seq![a[0]] + a.drop_first());
            assert(b =~= seq![b[0]] + b.drop_first());
        }
    } else if a.len() == 0 && b.len() == 0 {
        assert(a =~= b);
    }
}

/// Whether `a` comes before `b` in lexicographic order.
pub fn chars_less(a: &[char], b: &[char]) -> (r: bool)
    ensures
        r == chars_lt(a@, b@),
{
    let mut i: usize = 0;
    assert(a@.skip(0) =~= a@);
    assert(b@.skip(0) =~= b@);
    while i < a.len() && i < b.len() && a[i] == b[i]
        invariant
            i <= a.len(),
            i <= b.len(),
            chars_lt(a@, b@) == chars_lt(a@.skip(i as int), b@.skip(i as int)),
        decreases a.len() - i,
    {
        assert(a@.skip(i as int).drop_first() =~= a@.skip(i + 1));
        assert(b@.skip(i as int).drop_first() =~= b@.skip(i + 1));
        i = i + 1;
    }
    if i == b.len() {
        false
    } else if i == a.len() {
        true
    } else {
        a[i] < b[i]
    }
}

/// `p` holds no `c`.
pub open spec fn lacks_char(p: Seq<char>, c: char) -> bool {
    forall|k: int| 0 <= k < p.len() ==> #[trigger] p[k] != c
}

/// Two texts that do not hold `p`, joined by a character that `p` lacks, do not hold it.
pub proof fn lemma_joined_lacks_seq(x: Seq<char>, c: char, y: Seq<char>, p: Seq<char>)
    requires
        !contains_seq(x, p),
        !contains_seq(y, p),
        lacks_char(p, c),
        p.len() > 0,
    ensures
        !contains_seq(x + seq![c] + y, p),
{
    let s = x + seq![c] + y;
    if contains_seq(s, p) {
        let j = choose|j: int| occurs_at(s, p, j);
        assert(s.subrange(j, j + p.len()) == p);
        assert(forall|k: int| 0 <= k < p.len() ==> s[j + k] == #[trigger] p[k]);
        if j + p.len() <= x.len() {
            assert forall|k: int| 0 <= k < p.len() implies #[trigger] x[j + k] == p[k] by {
                assert(s[j + k] == x[j + k]);
            }
            assert(x.subrange(j, j + p.len()) =~= p);
            assert(occurs_at(x, p, j));
        } else if j <= x.len() {
            assert(s[j + (x.len() - j)] == p[x.len() - j]);
        } else {
            let q = j - x.len() - 1;
            assert forall|k: int| 0 <= k < p.len() implies #[trigger] y[q + k] == p[k] by {
                assert(s[j + k] == y[q + k]);
            }
            assert(y.subrange(q, q + p.len()) =~= p);
            assert(occurs_at(y, p, q));
        }
    }
}

/// A prefix of a text that does not hold `p` does not hold it.
pub proof fn lemma_prefix_lacks_seq(x: Seq<char>, n: int, p: Seq<char>)
    requires
        !contains_seq(x, p),
        0 <= n <= x.len(),
    ensures
        !contains_seq(x.take(n), p),
{
    let t = x.take(n);
    if contains_seq(t, p) {
        let j = choose|j: int| occurs_at(t, p, j);
        assert(t.subrange(j, j + p.len()) =~= x.subrange(j, j + p.len()));
        assert(occurs_at(x, p, j));
    }
}

/// Appending a character that `p` lacks to a text that does not hold `p` keeps it out.
pub proof fn lemma_push_lacks_seq(x: Seq<char>, c: char, p: Seq<char>)
    requires
        !contains_seq(x, p),
        lacks_char(p, c),
        p.len() > 0,
    ensures
        !contains_seq(x.push(c), p),
{
    lemma_joined_lacks_seq(x, c, Seq::empty(), p);
    assert(x + seq![c] + Seq::<char>::empty() =~= x.push(c));
}

} // verus!
