//! Decisions of the Mihomo runtime: redaction of kernel log lines, the live-stream status
//! and retry schedule, and the choice and checks of runtime inputs.
use vstd::prelude::*;

use crate::diagnostics::truncated;
use crate::profile::{is_https_url, byte_len, SecretUrl, MAX_SECRET_URL_BYTES};
use crate::text::{
    decimal, eq_ignore_ascii_case, has_prefix, lines, lines_of, parse_unsigned,
    parse_unsigned_exec, push_chars, push_decimal, starts_with, trim, trim_chars, chars_equal,
    views,
};
use crate::text::{
    ascii_lower, char_is_control, char_is_whitespace, chars_of, contains_seq, is_control,
    is_whitespace, lowercase, no_control, occurs_at, occurs_at_exec, slice_chars, string_of,
    to_ascii_lower,
};

verus! {

/// The most characters of a kernel log payload that are kept.
pub const MAX_KERNEL_LOG_CHARS: usize = 2048;

/// What replaces a URL in a kernel log payload.
pub const REDACTED_URL: &'static str = "<redacted-url>";

pub open spec fn blanked(c: char) -> char {
    if is_control(c) {
        ' '
    } else {
        c
    }
}

/// The first `MAX_KERNEL_LOG_CHARS` characters of a payload, control characters blanked.
pub open spec fn bounded_log(s: Seq<char>) -> Seq<char> {
    let n: nat = if s.len() <= MAX_KERNEL_LOG_CHARS {
        s.len()
    } else {
        MAX_KERNEL_LOG_CHARS as nat
    };
    Seq::new(n, |i: int| blanked(s[i]))
}

/// The length of the secret-bearing URL scheme that starts at `i` of lower-cased text.
pub open spec fn secret_scheme_at(l: Seq<char>, i: int) -> Option<nat> {
    if occurs_at(l, "https://"@, i) {
        Some("https://"@.len())
    } else if occurs_at(l, "http://"@, i) {
        Some("http://"@.len())
    } else if occurs_at(l, "vless://"@, i) {
        Some("vless://"@.len())
    } else {
        None
    }
}

/// The first secret-bearing scheme at or after `from`: its position and length.
pub open spec fn next_secret(l: Seq<char>, from: nat) -> Option<(nat, nat)>
    decreases l.len() - from,
{
    if from >= l.len() {
        None
    } else {
        match secret_scheme_at(l, from as int) {
            Some(p) => Some((from, p)),
            None => next_secret(l, from + 1),
        }
    }
}

/// A character that ends a URL in a log payload.
pub open spec fn ends_secret(c: char) -> bool {
    is_whitespace(c) || c == '"' || c == '\''
}

/// How many characters of a URL remain after its scheme.
pub open spec fn secret_end(t: Seq<char>) -> nat
    decreases t.len(),
{
    if t.len() == 0 {
        0
    } else if ends_secret(t[0]) {
        0
    } else {
        1 + secret_end(t.drop_first())
    }
}

pub proof fn lemma_next_secret_bound(l: Seq<char>, from: nat)
    ensures
        next_secret(l, from) matches Some((i, p)) ==> from <= i && i + p <= l.len() && p >= 1
            && secret_scheme_at(l, i as int) == Some(p),
    decreases l.len() - from,
{
    reveal_strlit("https://");
    reveal_strlit("http://");
    reveal_strlit("vless://");
    if from < l.len() && secret_scheme_at(l, from as int) is None {
        lemma_next_secret_bound(l, from + 1);
    }
}

pub proof fn lemma_secret_end_bound(t: Seq<char>)
    ensures
        secret_end(t) <= t.len(),
    decreases t.len(),
{
    if t.len() > 0 {
        lemma_secret_end_bound(t.drop_first());
    }
}

/// A payload with every URL replaced by `<redacted-url>`: from each secret-bearing scheme,
/// matched regardless of ASCII case, up to the next white space or quote.
pub open spec fn redacted_urls(s: Seq<char>) -> Seq<char>
    decreases s.len(),
{
    match next_secret(ascii_lower(s), 0) {
        None => s,
        Some((i, p)) => {
            proof {
                lemma_next_secret_bound(ascii_lower(s), 0);
                lemma_secret_end_bound(s.skip((i + p) as int));
            }
            let secret = s.skip((i + p) as int);
            s.take(i as int) + REDACTED_URL@ + redacted_urls(secret.skip(secret_end(secret) as int))
        },
    }
}

/// A kernel log payload as it is shown: bounded, control characters blanked, URLs redacted.
pub open spec fn sanitized_kernel_log(s: Seq<char>) -> Seq<char> {
    redacted_urls(bounded_log(s))
}

fn secret_scheme_len(l: &[char], i: usize, https: &[char], http: &[char], vless: &[char]) -> (r:
    Option<usize>)
    requires
        https@ == "https://"@,
        http@ == "http://"@,
        vless@ == "vless://"@,
    ensures
        match secret_scheme_at(l@, i as int) {
            Some(p) => r == Some(p as usize),
            None => r is None,
        },
{
    if occurs_at_exec(l, https, i) {
        Some(https.len())
    } else if occurs_at_exec(l, http, i) {
        Some(http.len())
    } else if occurs_at_exec(l, vless, i) {
        Some(vless.len())
    } else {
        None
    }
}

fn find_next_secret(l: &[char], https: &[char], http: &[char], vless: &[char]) -> (r: Option<
    (usize, usize),
>)
    requires
        https@ == "https://"@,
        http@ == "http://"@,
        vless@ == "vless://"@,
    ensures
        match next_secret(l@, 0) {
            Some((i, p)) => r == Some((i as usize, p as usize)),
            None => r is None,
        },
{
    let mut j: usize = 0;
    while j < l.len()
        invariant
            j <= l.len(),
            https@ == "https://"@,
            http@ == "http://"@,
            vless@ == "vless://"@,
            next_secret(l@, 0) == next_secret(l@, j as nat),
        decreases l.len() - j,
    {
        match secret_scheme_len(l, j, https, http, vless) {
            Some(p) => {
                return Some((j, p));
            },
            None => {},
        }
        j = j + 1;
    }
    None
}

proof fn lemma_secret_end(t: Seq<char>, k: int)
    requires
        0 <= k <= t.len(),
        forall|j: int| 0 <= j < k ==> !ends_secret(#[trigger] t[j]),
        k == t.len() || ends_secret(t[k]),
    ensures
        secret_end(t) == k,
    decreases k,
{
    if k > 0 {
        let u = t.drop_first();
        assert forall|j: int| 0 <= j < k - 1 implies !ends_secret(#[trigger] u[j]) by {
            assert(u[j] == t[j + 1]);
        }
        if k - 1 < u.len() {
            assert(u[k - 1] == t[k]);
        }
        lemma_secret_end(u, k - 1);
    }
}

fn find_secret_end(t: &[char]) -> (r: usize)
    ensures
        r == secret_end(t@),
{
    let mut j: usize = 0;
    while j < t.len() && !char_is_whitespace(t[j]) && t[j] != '"' && t[j] != '\''
        invariant
            j <= t.len(),
            forall|k: int| 0 <= k < j ==> !ends_secret(#[trigger] t@[k]),
        decreases t.len() - j,
    {
        j = j + 1;
    }
    proof {
        lemma_secret_end(t@, j as int);
    }
    j
}

fn append_range(out: &mut Vec<char>, v: &[char], from: usize, to: usize)
    requires
        from <= to <= v.len(),
    ensures
        final(out)@ == old(out)@ + v@.subrange(from as int, to as int),
{
    let mut k: usize = from;
    while k < to
        invariant
            from <= k <= to <= v.len(),
            out@ == old(out)@ + v@.subrange(from as int, k as int),
        decreases to - k,
    {
        out.push(v[k]);
        k = k + 1;
        assert(out@ =~= old(out)@ + v@.subrange(from as int, k as int));
    }
}

/// Makes a kernel log payload safe to show: at most `MAX_KERNEL_LOG_CHARS` characters,
/// control characters blanked, and every URL replaced by `<redacted-url>`.
pub fn sanitize_kernel_log(value: &str) -> (r: String)
    ensures
        r@ == sanitized_kernel_log(value@),
{
    let v = chars_of(value);
    let n: usize = if v.len() <= MAX_KERNEL_LOG_CHARS {
        v.len()
    } else {
        MAX_KERNEL_LOG_CHARS
    };
    let mut rem: Vec<char> = Vec::new();
    let mut i: usize = 0;
    while i < n
        invariant
            i <= n,
            n <= v.len(),
            n == bounded_log(v@).len(),
            rem@ == bounded_log(v@).take(i as int),
        decreases n - i,
    {
        let c = v[i];
        if char_is_control(c) {
            rem.push(' ');
        } else {
            rem.push(c);
        }
        i = i + 1;
        assert(rem@ =~= bounded_log(v@).take(i as int));
    }
    assert(rem@ =~= bounded_log(v@));
    let https = chars_of("https://");
    let http = chars_of("http://");
    let vless = chars_of("vless://");
    let marker = chars_of(REDACTED_URL);
    let mut out: Vec<char> = Vec::new();
    while rem.len() > 0
        invariant
            https@ == "https://"@,
            http@ == "http://"@,
            vless@ == "vless://"@,
            marker@ == REDACTED_URL@,
            out@ + redacted_urls(rem@) == sanitized_kernel_log(value@),
        decreases rem.len(),
    {
        let lower = lowercase(rem.as_slice());
        let ghost before = rem@;
        assert(lower@ == ascii_lower(before));
        match find_next_secret(lower.as_slice(), https.as_slice(), http.as_slice(), vless.as_slice()) {
            None => {
                append_range(&mut out, rem.as_slice(), 0, rem.len());
                assert(rem@.subrange(0, rem.len() as int) =~= rem@);
                rem = Vec::new();
                assert(redacted_urls(rem@) =~= Seq::<char>::empty());
                assert(out@ + redacted_urls(rem@) =~= out@);
            },
            Some((at, len)) => {
                proof {
                    lemma_next_secret_bound(lower@, 0);
                }
                let ghost start = out@;
                append_range(&mut out, rem.as_slice(), 0, at);
                append_range(&mut out, marker.as_slice(), 0, marker.len());
                let secret = slice_chars(rem.as_slice(), at + len, rem.len());
                let end = find_secret_end(secret.as_slice());
                proof {
                    lemma_secret_end_bound(secret@);
                }
                rem = slice_chars(secret.as_slice(), end, secret.len());
                proof {
                    assert(before.take(at as int) =~= before.subrange(0, at as int));
                    assert(marker@.subrange(0, marker@.len() as int) =~= marker@);
                    assert(secret@ =~= before.skip((at + len) as int));
                    assert(rem@ =~= secret@.skip(end as int));
                    assert(redacted_urls(before) == before.take(at as int) + REDACTED_URL@
                        + redacted_urls(rem@));
                    assert(out@ + redacted_urls(rem@) =~= start + redacted_urls(before));
                }
            },
        }
    }
    string_of(out.as_slice())
}

/// One of the URL schemes that the redaction looks for.
pub open spec fn is_secret_scheme(p: Seq<char>) -> bool {
    p == "https://"@ || p == "http://"@ || p == "vless://"@
}

proof fn lemma_scheme_shape(p: Seq<char>)
    requires
        is_secret_scheme(p),
    ensures
        p.len() >= 7,
        p[0] == 'h' || p[0] == 'v',
        forall|k: int| 0 <= k < p.len() ==> #[trigger] p[k] != '<',
{
    reveal_strlit("https://");
    reveal_strlit("http://");
    reveal_strlit("vless://");
}

proof fn lemma_no_secret_after(l: Seq<char>, from: nat)
    requires
        next_secret(l, from) is None,
    ensures
        forall|j: int| from <= j ==> #[trigger] secret_scheme_at(l, j) is None,
    decreases l.len() - from,
{
    reveal_strlit("https://");
    reveal_strlit("http://");
    reveal_strlit("vless://");
    if from < l.len() {
        lemma_no_secret_after(l, from + 1);
    }
}

proof fn lemma_no_secret_before(l: Seq<char>, from: nat)
    requires
        next_secret(l, from) is Some,
    ensures
        forall|j: int|
            from <= j < next_secret(l, from).unwrap().0 ==> #[trigger] secret_scheme_at(l, j)
                is None,
    decreases l.len() - from,
{
    if from < l.len() && secret_scheme_at(l, from as int) is None {
        lemma_no_secret_before(l, from + 1);
    }
}

proof fn lemma_scheme_at(l: Seq<char>, p: Seq<char>, j: int)
    requires
        is_secret_scheme(p),
        occurs_at(l, p, j),
    ensures
        secret_scheme_at(l, j) is Some,
{
}

proof fn lemma_ascii_lower_concat(x: Seq<char>, y: Seq<char>)
    ensures
        ascii_lower(x + y) == ascii_lower(x) + ascii_lower(y),
{
    assert(ascii_lower(x + y) =~= ascii_lower(x) + ascii_lower(y));
}

proof fn lemma_marker_lower()
    ensures
        ascii_lower(REDACTED_URL@) == REDACTED_URL@,
        REDACTED_URL@.len() > 0,
        REDACTED_URL@[0] == '<',
        forall|k: int|
            0 <= k < REDACTED_URL@.len() ==> #[trigger] REDACTED_URL@[k] != 'h' && REDACTED_URL@[k]
                != 'v' && !is_control(REDACTED_URL@[k]),
{
    reveal_strlit("<redacted-url>");
    let m = REDACTED_URL@;
    assert forall|k: int| 0 <= k < m.len() implies #[trigger] ascii_lower(m)[k] == m[k] by {
        assert(to_ascii_lower(m[k]) == m[k]);
    }
    assert(ascii_lower(m) =~= m);
}

/// A redacted payload holds no occurrence of a secret-bearing scheme, in any ASCII case.
proof fn lemma_redacted_has_no_scheme(s: Seq<char>, p: Seq<char>)
    requires
        is_secret_scheme(p),
    ensures
        !contains_seq(ascii_lower(redacted_urls(s)), p),
    decreases s.len(),
{
    lemma_scheme_shape(p);
    let l = ascii_lower(s);
    match next_secret(l, 0) {
        None => {
            lemma_no_secret_after(l, 0);
            if contains_seq(l, p) {
                let j = choose|j: int| occurs_at(l, p, j);
                lemma_scheme_at(l, p, j);
            }
        },
        Some((i, n)) => {
            lemma_next_secret_bound(l, 0);
            lemma_no_secret_before(l, 0);
            lemma_secret_end_bound(s.skip((i + n) as int));
            let secret = s.skip((i + n) as int);
            let rest = secret.skip(secret_end(secret) as int);
            lemma_redacted_has_no_scheme(rest, p);
            let a = s.take(i as int);
            let m = REDACTED_URL@;
            let r = redacted_urls(rest);
            lemma_marker_lower();
            lemma_ascii_lower_concat(a, m);
            lemma_ascii_lower_concat(a + m, r);
            let big = ascii_lower(redacted_urls(s));
            assert(redacted_urls(s) == a + m + r);
            assert(big == ascii_lower(a) + m + ascii_lower(r));
            if contains_seq(big, p) {
                let j = choose|j: int| occurs_at(big, p, j);
                assert(big.subrange(j, j + p.len()) == p);
                assert(forall|k: int| 0 <= k < p.len() ==> big[j + k] == #[trigger] p[k]);
                if j + p.len() <= a.len() {
                    assert forall|k: int| 0 <= k < p.len() implies #[trigger] l[j + k] == p[k] by {
                        assert(big[j + k] == ascii_lower(a)[j + k]);
                        assert(l[j + k] == ascii_lower(a)[j + k]);
                    }
                    assert(l.subrange(j, j + p.len()) =~= p);
                    lemma_scheme_at(l, p, j);
                } else if j < a.len() {
                    assert(big[a.len() as int] == m[0]);
                    assert(big[j + (a.len() - j)] == p[a.len() - j]);
                } else if j < a.len() + m.len() {
                    assert(big[j] == m[j - a.len()]);
                    assert(big[j + 0] == p[0]);
                } else {
                    let q = j - a.len() - m.len();
                    let lr = ascii_lower(r);
                    assert forall|k: int| 0 <= k < p.len() implies #[trigger] lr[q + k] == p[k] by {
                        assert(big[j + k] == lr[q + k]);
                    }
                    assert(lr.subrange(q, q + p.len()) =~= p);
                    assert(occurs_at(lr, p, q));
                }
            }
        },
    }
}

proof fn lemma_redacted_no_control(s: Seq<char>)
    requires
        no_control(s),
    ensures
        no_control(redacted_urls(s)),
    decreases s.len(),
{
    let l = ascii_lower(s);
    match next_secret(l, 0) {
        None => {},
        Some((i, n)) => {
            lemma_next_secret_bound(l, 0);
            lemma_secret_end_bound(s.skip((i + n) as int));
            let secret = s.skip((i + n) as int);
            let rest = secret.skip(secret_end(secret) as int);
            assert forall|k: int| 0 <= k < rest.len() implies !is_control(#[trigger] rest[k]) by {
                assert(rest[k] == s[k + i + n + secret_end(secret)]);
            }
            lemma_redacted_no_control(rest);
            lemma_marker_lower();
            let out = redacted_urls(s);
            let a = s.take(i as int);
            let m = REDACTED_URL@;
            let r = redacted_urls(rest);
            assert(out == a + m + r);
            assert forall|k: int| 0 <= k < out.len() implies !is_control(#[trigger] out[k]) by {
                if k < a.len() {
                    assert(out[k] == s[k]);
                } else if k < a.len() + m.len() {
                    assert(out[k] == m[k - a.len()]);
                } else {
                    assert(out[k] == r[k - a.len() - m.len()]);
                }
            }
        },
    }
}

/// A sanitized kernel log payload holds no `https://`, `http://` or `vless://` in any ASCII
/// case, and no control character.
pub proof fn lemma_kernel_log_is_redacted(s: Seq<char>)
    ensures
        !contains_seq(ascii_lower(sanitized_kernel_log(s)), "https://"@),
        !contains_seq(ascii_lower(sanitized_kernel_log(s)), "http://"@),
        !contains_seq(ascii_lower(sanitized_kernel_log(s)), "vless://"@),
        no_control(sanitized_kernel_log(s)),
{
    let b = bounded_log(s);
    lemma_redacted_has_no_scheme(b, "https://"@);
    lemma_redacted_has_no_scheme(b, "http://"@);
    lemma_redacted_has_no_scheme(b, "vless://"@);
    assert forall|k: int| 0 <= k < b.len() implies !is_control(#[trigger] b[k]) by {}
    lemma_redacted_no_control(b);
}

/// The characters of `s` that are not control characters.
pub open spec fn printable(s: Seq<char>) -> Seq<char>
    decreases s.len(),
{
    if s.len() == 0 {
        Seq::empty()
    } else if is_control(s.last()) {
        printable(s.drop_last())
    } else {
        printable(s.drop_last()).push(s.last())
    }
}

proof fn lemma_printable(s: Seq<char>)
    ensures
        no_control(printable(s)),
        printable(s).len() <= s.len(),
        no_control(s) ==> printable(s) == s,
        forall|i: int|
            0 <= i < printable(s).len() ==> exists|j: int|
                0 <= j < s.len() && s[j] == #[trigger] printable(s)[i],
    decreases s.len(),
{
    if s.len() > 0 {
        let f = s.drop_last();
        lemma_printable(f);
        if no_control(s) {
            assert(no_control(f)) by {
                assert forall|k: int| 0 <= k < f.len() implies !is_control(#[trigger] f[k]) by {
                    assert(f[k] == s[k]);
                }
            }
            assert(s.last() == s[s.len() - 1]);
            assert(f.push(s.last()) =~= s);
        }
        let r = printable(s);
        assert forall|i: int| 0 <= i < r.len() implies exists|j: int|
            0 <= j < s.len() && s[j] == #[trigger] r[i] by {
            if i < printable(f).len() {
                assert(r[i] == printable(f)[i]);
                let j = choose|j: int| 0 <= j < f.len() && f[j] == printable(f)[i];
                assert(s[j] == f[j]);
            } else {
                assert(r[i] == s[s.len() - 1]);
            }
        }
    } else {
        assert(printable(s) =~= s);
    }
}

/// A shown log field has at most `limit` characters, none of them a control character, each
/// taken from the value; a value without control characters that fits is shown unchanged.
pub proof fn lemma_log_field_is_clean(value: Seq<char>, limit: nat)
    ensures
        truncated(printable(value), limit).len() <= limit,
        no_control(truncated(printable(value), limit)),
        forall|i: int|
            0 <= i < truncated(printable(value), limit).len() ==> exists|j: int|
                0 <= j < value.len() && value[j] == #[trigger] truncated(printable(value), limit)[i],
        no_control(value) && value.len() <= limit ==> truncated(printable(value), limit) == value,
{
    lemma_printable(value);
    let p = printable(value);
    let t = truncated(p, limit);
    assert forall|i: int| 0 <= i < t.len() implies !is_control(#[trigger] t[i]) by {
        assert(t[i] == p[i]);
    }
    assert forall|i: int| 0 <= i < t.len() implies exists|j: int|
        0 <= j < value.len() && value[j] == #[trigger] t[i] by {
        assert(t[i] == p[i]);
    }
}

/// A short kernel log field as it is shown: control characters dropped, at most `limit`
/// characters kept.
pub fn sanitize_log_field(value: &str, limit: usize) -> (r: String)
    ensures
        r@ == truncated(printable(value@), limit as nat),
{
    let v = chars_of(value);
    let mut out: Vec<char> = Vec::new();
    let mut i: usize = 0;
    while i < v.len()
        invariant
            i <= v.len(),
            out@ == truncated(printable(v@.take(i as int)), limit as nat),
        decreases v.len() - i,
    {
        let c = v[i];
        assert(v@.take(i + 1).drop_last() == v@.take(i as int));
        if !char_is_control(c) && out.len() < limit {
            out.push(c);
        }
        i = i + 1;
        assert(out@ =~= truncated(printable(v@.take(i as int)), limit as nat));
    }
    assert(v@.take(v.len() as int) == v@);
    string_of(out.as_slice())
}

/// The status line of a live stream on its `attempt`-th reconnection.
pub open spec fn stream_phase_text(attempt: nat) -> Seq<char> {
    if attempt == 0 {
        "正在建立实时流"@
    } else {
        "正在重连 · 第 "@ + decimal(attempt) + " 次"@
    }
}

pub fn stream_phase(attempt: usize) -> (r: String)
    ensures
        r@ == stream_phase_text(attempt as nat),
{
    if attempt == 0 {
        "正在建立实时流".to_owned()
    } else {
        let mut out = String::new();
        let head = chars_of("正在重连 · 第 ");
        push_chars(&mut out, head.as_slice());
        push_decimal(&mut out, attempt as u128);
        let tail = chars_of(" 次");
        push_chars(&mut out, tail.as_slice());
        out
    }
}

/// The reconnection count after a connection attempt: reset by a success, else one more.
pub fn next_reconnect_attempt(attempt: usize, succeeded: bool) -> (r: usize)
    ensures
        r == if succeeded {
            0
        } else if attempt == usize::MAX {
            attempt
        } else {
            (attempt + 1) as usize
        },
{
    if succeeded {
        0
    } else {
        attempt.saturating_add(1)
    }
}

/// The longest pause between reconnections, in milliseconds.
pub const MAX_RECONNECT_DELAY_MS: u64 = 5000;

/// The pause before the next reconnection: 250 ms doubled per failed attempt, at most five
/// doublings, capped at `MAX_RECONNECT_DELAY_MS`.
pub open spec fn reconnect_delay(attempt: nat) -> nat {
    let doublings: nat = if attempt < 5 {
        attempt
    } else {
        5
    };
    let d = 250 * vstd::arithmetic::power2::pow2(doublings);
    if d < MAX_RECONNECT_DELAY_MS {
        d
    } else {
        MAX_RECONNECT_DELAY_MS as nat
    }
}

/// Reconnection backs off by doubling: the first pause is 250 ms, each next pause is twice the
/// one before until it reaches the cap, and then it stays at the cap.
pub proof fn lemma_reconnect_delay_doubles(attempt: nat)
    ensures
        reconnect_delay(0) == 250,
        reconnect_delay(attempt) <= MAX_RECONNECT_DELAY_MS,
        reconnect_delay(attempt + 1) == if 2 * reconnect_delay(attempt) < MAX_RECONNECT_DELAY_MS {
            2 * reconnect_delay(attempt)
        } else {
            MAX_RECONNECT_DELAY_MS as nat
        },
{
    vstd::arithmetic::power2::lemma2_to64();
    if attempt < 5 {
        vstd::arithmetic::power2::lemma_pow2_unfold(attempt + 1);
    }
}

pub fn reconnect_delay_ms(attempt: usize) -> (r: u64)
    ensures
        r == reconnect_delay(attempt as nat),
{
    let doublings: usize = if attempt < 5 {
        attempt
    } else {
        5
    };
    let mut delay: u64 = 250;
    let mut k: usize = 0;
    proof {
        vstd::arithmetic::power2::lemma2_to64();
    }
    while k < doublings
        invariant
            k <= doublings <= 5,
            delay == 250 * vstd::arithmetic::power2::pow2(k as nat),
        decreases doublings - k,
    {
        proof {
            vstd::arithmetic::power2::lemma2_to64();
        }
        delay = delay * 2;
        k = k + 1;
    }
    if delay < MAX_RECONNECT_DELAY_MS {
        delay
    } else {
        MAX_RECONNECT_DELAY_MS
    }
}

/// Whether a Mihomo proxy type names a selector group, ignoring ASCII case.
pub fn is_selector_proxy_type(proxy_type: &str) -> (r: bool)
    ensures
        r == (ascii_lower(proxy_type@) == ascii_lower("Selector"@)),
{
    let v = chars_of(proxy_type);
    let s = chars_of("Selector");
    eq_ignore_ascii_case(v.as_slice(), s.as_slice())
}

/// Where the Mihomo runtime takes its profile from, as the launch settings choose it.
#[derive(Debug, PartialEq, Eq)]
pub enum RuntimeInput<P> {
    External,
    ExistingConfig { binary: P, config_file: P },
    SubscriptionFile { binary: P, subscription_file: P },
}

/// Chooses the runtime input from the binary, configuration-file and subscription-file
/// settings: none of them, a binary with exactly one of the two files, or an error.
pub fn select_runtime_input<P>(
    binary: Option<P>,
    config_file: Option<P>,
    subscription_file: Option<P>,
) -> (r: Result<RuntimeInput<P>, String>)
    ensures
        match (binary, config_file, subscription_file) {
            (None, None, None) => r == Ok::<RuntimeInput<P>, String>(RuntimeInput::External),
            (Some(b), Some(c), None) => r == Ok::<RuntimeInput<P>, String>(
                RuntimeInput::ExistingConfig { binary: b, config_file: c },
            ),
            (Some(b), None, Some(f)) => r == Ok::<RuntimeInput<P>, String>(
                RuntimeInput::SubscriptionFile { binary: b, subscription_file: f },
            ),
            (_, Some(_), Some(_)) => r matches Err(m) && m@
                == "RELAY_MIHOMO_CONFIG 与 RELAY_MIHOMO_SUBSCRIPTION_FILE 不能同时设置"@,
            _ => r matches Err(m) && m@
                == "RELAY_MIHOMO_BINARY 必须与 RELAY_MIHOMO_CONFIG 或 RELAY_MIHOMO_SUBSCRIPTION_FILE 之一同时设置"@,
        },
{
    match (binary, config_file, subscription_file) {
        (None, None, None) => Ok(RuntimeInput::External),
        (Some(binary), Some(config_file), None) => Ok(
            RuntimeInput::ExistingConfig { binary, config_file },
        ),
        (Some(binary), None, Some(subscription_file)) => Ok(
            RuntimeInput::SubscriptionFile { binary, subscription_file },
        ),
        (_, Some(_), Some(_)) => Err(
            "RELAY_MIHOMO_CONFIG 与 RELAY_MIHOMO_SUBSCRIPTION_FILE 不能同时设置".to_owned(),
        ),
        _ => Err(
            "RELAY_MIHOMO_BINARY 必须与 RELAY_MIHOMO_CONFIG 或 RELAY_MIHOMO_SUBSCRIPTION_FILE 之一同时设置".to_owned(),
        ),
    }
}

/// The mixed port of a managed runtime when no setting is given.
pub const DEFAULT_MANAGED_MIXED_PORT: u16 = 17890;

/// The mixed port that a setting asks for: the default when it is absent, else a port
/// from 1 to 65535 written as `str::parse` reads it.
pub fn mixed_port_setting(value: Option<&str>) -> (r: Result<u16, String>)
    ensures
        match value {
            None => r == Ok::<u16, String>(DEFAULT_MANAGED_MIXED_PORT),
            Some(v) => match parse_unsigned(v@, u16::MAX as nat) {
                Some(n) if n != 0 => r == Ok::<u16, String>(n as u16),
                _ => r matches Err(m) && m@ == "RELAY_MIHOMO_MIXED_PORT 必须是 1 到 65535 的端口"@,
            },
        },
{
    match value {
        None => Ok(DEFAULT_MANAGED_MIXED_PORT),
        Some(v) => {
            let chars = chars_of(v);
            match parse_unsigned_exec(chars.as_slice(), u16::MAX as u128) {
                Some(n) if n != 0 => Ok(n as u16),
                _ => Err("RELAY_MIHOMO_MIXED_PORT 必须是 1 到 65535 的端口".to_owned()),
            }
        },
    }
}

/// The largest private subscription file, in bytes.
pub const MAX_SUBSCRIPTION_FILE_BYTES: usize = 16384;

/// `s` without its trailing carriage returns and line feeds.
pub open spec fn trim_end_newlines(s: Seq<char>) -> Seq<char>
    decreases s.len(),
{
    if s.len() > 0 && (s.last() == '\r' || s.last() == '\n') {
        trim_end_newlines(s.drop_last())
    } else {
        s
    }
}

/// A single line without surrounding white space.
pub open spec fn is_single_trimmed_line(s: Seq<char>) -> bool {
    s.len() > 0 && lines(s).len() == 1 && trim(s) == s
}

fn single_trimmed_line(v: &[char]) -> (r: bool)
    ensures
        r == is_single_trimmed_line(v@),
{
    if v.len() == 0 {
        return false;
    }
    let ls = lines_of(v);
    assert(views(ls@).len() == ls@.len());
    let t = trim_chars(v);
    ls.len() == 1 && chars_equal(t.as_slice(), v)
}

/// The subscription that a private subscription file holds: at most 16 KiB, one HTTPS URL on
/// a single line, final line breaks ignored. No error message quotes the file.
pub fn private_subscription_value(contents: &str) -> (r: Result<SecretUrl, String>)
    ensures
        byte_len(contents@) > MAX_SUBSCRIPTION_FILE_BYTES ==> (r matches Err(m) && m@
            == "私有订阅文件超过 16 KiB 限制"@),
        byte_len(contents@) <= MAX_SUBSCRIPTION_FILE_BYTES && !is_single_trimmed_line(
            trim_end_newlines(contents@),
        ) ==> (r matches Err(m) && m@ == "私有订阅文件必须只包含一行 HTTPS URL"@),
        byte_len(contents@) <= MAX_SUBSCRIPTION_FILE_BYTES && is_single_trimmed_line(
            trim_end_newlines(contents@),
        ) ==> match r {
            Ok(url) => url@ == trim_end_newlines(contents@) && is_https_url(url@),
            Err(m) => !(is_https_url(trim_end_newlines(contents@)) && byte_len(
                trim_end_newlines(contents@),
            ) <= MAX_SECRET_URL_BYTES) && m@ == "私有订阅文件必须只包含一个有效 HTTPS URL"@,
        },
{
    if contents.len() > MAX_SUBSCRIPTION_FILE_BYTES {
        return Err("私有订阅文件超过 16 KiB 限制".to_owned());
    }
    let v = chars_of(contents);
    let mut end: usize = v.len();
    assert(v@.take(end as int) =~= v@);
    while end > 0 && (v[end - 1] == '\r' || v[end - 1] == '\n')
        invariant
            end <= v.len(),
            trim_end_newlines(v@) == trim_end_newlines(v@.take(end as int)),
        decreases end,
    {
        assert(v@.take(end as int).drop_last() =~= v@.take(end - 1));
        end = end - 1;
    }
    assert(trim_end_newlines(v@.take(end as int)) == v@.take(end as int));
    let value = slice_chars(v.as_slice(), 0, end);
    assert(value@ =~= v@.take(end as int));
    if !single_trimmed_line(value.as_slice()) {
        return Err("私有订阅文件必须只包含一行 HTTPS URL".to_owned());
    }
    let text = string_of(value.as_slice());
    match SecretUrl::parse_https(text.as_str()) {
        Ok(url) => Ok(url),
        Err(_) => Err("私有订阅文件必须只包含一个有效 HTTPS URL".to_owned()),
    }
}

/// Why a controller endpoint cannot be used.
#[derive(Clone, Copy, Debug, PartialEq, Eq, Structural)]
pub enum ControllerEndpointError {
    RelativeSocketPath,
}

impl ControllerEndpointError {
    pub fn message(self) -> (r: &'static str)
        ensures
            r@ == "Unix controller socket path must be absolute"@,
    {
        "Unix controller socket path must be absolute"
    }
}

/// The socket path of a `unix://` controller endpoint, which must be absolute; `None` for
/// any other endpoint.
pub fn unix_socket_path(endpoint: &str) -> (r: Result<Option<String>, ControllerEndpointError>)
    ensures
        !has_prefix(endpoint@, "unix://"@) ==> r == Ok::<Option<String>, ControllerEndpointError>(
            None,
        ),
        has_prefix(endpoint@, "unix://"@) ==> match r {
            Ok(Some(path)) => path@ == endpoint@.skip(7) && path@.len() > 0 && path@[0] == '/',
            Ok(None) => false,
            Err(e) => e == ControllerEndpointError::RelativeSocketPath && !(endpoint@.len() > 7
                && endpoint@[7] == '/'),
        },
{
    proof {
        reveal_strlit("unix://");
    }
    let v = chars_of(endpoint);
    let scheme = chars_of("unix://");
    if !starts_with(v.as_slice(), scheme.as_slice()) {
        return Ok(None);
    }
    let path = slice_chars(v.as_slice(), 7, v.len());
    if path.len() == 0 || path[0] != '/' {
        return Err(ControllerEndpointError::RelativeSocketPath);
    }
    Ok(Some(string_of(path.as_slice())))
}

} // verus!
