//! The private source store: identifiers and file names of saved sources, the hexadecimal
//! field encoding, and the versioned text format of a saved subscription.
use vstd::prelude::*;

use crate::diagnostics::{lemma_decimal_digits, lemma_decimal_parses};
use crate::profile::{byte_len, is_subscription_url, SecretUrl, MAX_SECRET_URL_BYTES};
use crate::sources::{
    interval_for_key, interval_key, lemma_interval_key_round_trip, RemoteSourceRefreshInterval,
    SubscriptionStoreError,
};
use crate::subscription::{VlessSource, MAX_SUBSCRIPTION_BYTES};
use crate::text::{chars_less, chars_lt, join, join_chars, lemma_chars_lt_irreflexive,
    lemma_chars_lt_total, lemma_chars_lt_transitive, slice_chars};
use crate::text::{char_is_ascii_alphanumeric, char_is_ascii_hexdigit, chars_equal, chars_of,
    decimal, digit_char, digit_char_exec, find_char, has_prefix, hex_lower, is_ascii_alphanumeric,
    is_ascii_hexdigit, lemma_find_char, lines, lines_of, parse_unsigned, parse_unsigned_exec,
    push_chars, push_decimal, push_hex, split_all, split_chars, starts_with, str_equal, strip_cr,
    string_from_utf8, string_of, trim, trim_chars, views,
};

verus! {

/// The lower-case hexadecimal digits of `bytes`, two per byte, high half first.
pub open spec fn hex_of_bytes(bytes: Seq<u8>) -> Seq<char> {
    Seq::new(
        2 * bytes.len(),
        |i: int|
            if i % 2 == 0 {
                digit_char((bytes[i / 2] / 16) as nat)
            } else {
                digit_char((bytes[i / 2] % 16) as nat)
            },
    )
}

/// The stored form of a field: the hexadecimal digits of its UTF-8 bytes.
pub open spec fn encoded_hex(s: Seq<char>) -> Seq<char> {
    hex_of_bytes(vstd::utf8::encode_utf8(s))
}

/// The value of a lower-case hexadecimal digit.
pub open spec fn lower_hex_value(c: char) -> Option<u8> {
    if '0' <= c && c <= '9' {
        Some(((c as u32) - 48) as u8)
    } else if 'a' <= c && c <= 'f' {
        Some(((c as u32) - 87) as u8)
    } else {
        None
    }
}

pub open spec fn all_lower_hex(v: Seq<char>) -> bool {
    forall|i: int| 0 <= i < v.len() ==> (#[trigger] lower_hex_value(v[i])) is Some
}

/// The bytes that pairs of lower-case hexadecimal digits stand for.
pub open spec fn hex_pair_bytes(v: Seq<char>) -> Seq<u8> {
    Seq::new(
        v.len() / 2,
        |k: int|
            (lower_hex_value(v[2 * k]).unwrap() * 16 + lower_hex_value(v[2 * k + 1]).unwrap()) as u8,
    )
}

/// The text a stored field decodes to: an even number of lower-case hexadecimal digits whose
/// bytes are valid UTF-8.
pub open spec fn decoded_hex(v: Seq<char>) -> Option<Seq<char>> {
    if v.len() % 2 == 0 && all_lower_hex(v) && vstd::utf8::valid_utf8(hex_pair_bytes(v)) {
        Some(vstd::utf8::decode_utf8(hex_pair_bytes(v)))
    } else {
        None
    }
}

/// Encodes the UTF-8 bytes of `value` as lower-case hexadecimal digits.
pub fn encode_hex(value: &str) -> (r: String)
    ensures
        r@ == encoded_hex(value@),
{
    let bytes = value.as_bytes();
    let mut encoded = String::new();
    let mut i: usize = 0;
    while i < bytes.len()
        invariant
            i <= bytes.len(),
            bytes@ == vstd::utf8::encode_utf8(value@),
            encoded@ == hex_of_bytes(bytes@.take(i as int)),
        decreases bytes.len() - i,
    {
        let byte = bytes[i];
        encoded.push(digit_char_exec((byte / 16) as u32));
        encoded.push(digit_char_exec((byte % 16) as u32));
        i = i + 1;
        assert(encoded@ =~= hex_of_bytes(bytes@.take(i as int)));
    }
    assert(bytes@.take(bytes.len() as int) =~= bytes@);
    encoded
}

/// The value of one lower-case hexadecimal digit.
fn decode_hex_digit(value: char) -> (r: Result<u8, SubscriptionStoreError>)
    ensures
        match lower_hex_value(value) {
            Some(n) => r == Ok::<u8, SubscriptionStoreError>(n),
            None => r == Err::<u8, SubscriptionStoreError>(
                SubscriptionStoreError::StoredSourceUnavailable,
            ),
        },
{
    if '0' <= value && value <= '9' {
        Ok(((value as u32) - 48) as u8)
    } else if 'a' <= value && value <= 'f' {
        Ok(((value as u32) - 87) as u8)
    } else {
        Err(SubscriptionStoreError::StoredSourceUnavailable)
    }
}

/// Decodes a stored field; any malformed field makes the stored source unreadable.
pub fn decode_hex(value: &str) -> (r: Result<String, SubscriptionStoreError>)
    ensures
        match decoded_hex(value@) {
            Some(s) => r matches Ok(t) && t@ == s,
            None => r == Err::<String, SubscriptionStoreError>(
                SubscriptionStoreError::StoredSourceUnavailable,
            ),
        },
{
    let v = chars_of(value);
    if v.len() % 2 != 0 {
        return Err(SubscriptionStoreError::StoredSourceUnavailable);
    }
    let mut decoded: Vec<u8> = Vec::new();
    let mut k: usize = 0;
    while k < v.len() / 2
        invariant
            v@ == value@,
            v.len() % 2 == 0,
            k <= v.len() / 2,
            forall|i: int| 0 <= i < 2 * k ==> (#[trigger] lower_hex_value(v@[i])) is Some,
            decoded@ == hex_pair_bytes(v@).take(k as int),
        decreases v.len() / 2 - k,
    {
        let high = match decode_hex_digit(v[2 * k]) {
            Ok(d) => d,
            Err(e) => return Err(e),
        };
        let low = match decode_hex_digit(v[2 * k + 1]) {
            Ok(d) => d,
            Err(e) => return Err(e),
        };
        decoded.push(high * 16 + low);
        k = k + 1;
        assert(decoded@ =~= hex_pair_bytes(v@).take(k as int));
    }
    assert(hex_pair_bytes(v@).take(k as int) =~= hex_pair_bytes(v@));
    match string_from_utf8(decoded) {
        Some(s) => Ok(s),
        None => Err(SubscriptionStoreError::StoredSourceUnavailable),
    }
}

pub proof fn lemma_hex_digit(n: nat)
    requires
        n < 16,
    ensures
        lower_hex_value(digit_char(n)) == Some(n as u8),
{
    let c = digit_char(n);
    if n < 10 {
        assert(c as u32 == n + 48);
    } else {
        assert(c as u32 == n + 87);
    }
}

/// A stored field decodes to exactly the text it was encoded from.
pub proof fn lemma_hex_round_trip(s: Seq<char>)
    ensures
        decoded_hex(encoded_hex(s)) == Some(s),
{
    let b = vstd::utf8::encode_utf8(s);
    let h = encoded_hex(s);
    assert forall|i: int| 0 <= i < h.len() implies (#[trigger] lower_hex_value(h[i])) is Some by {
        lemma_hex_digit((b[i / 2] / 16) as nat);
        lemma_hex_digit((b[i / 2] % 16) as nat);
    }
    assert forall|k: int| 0 <= k < b.len() implies #[trigger] hex_pair_bytes(h)[k] == b[k] by {
        assert((2 * k) / 2 == k);
        assert((2 * k + 1) / 2 == k);
        assert((2 * k) % 2 == 0);
        assert((2 * k + 1) % 2 == 1);
        lemma_hex_digit((b[k] / 16) as nat);
        lemma_hex_digit((b[k] % 16) as nat);
    }
    assert(hex_pair_bytes(h) =~= b);
    vstd::utf8::encode_utf8_valid_utf8(s);
    vstd::utf8::encode_utf8_decode_utf8(s);
}

/// The identifier of the subscription imported before sources had identifiers.
pub const LEGACY_SUBSCRIPTION_ID: &'static str = "subscription:legacy";

/// The file that holds the legacy subscription.
pub const IMPORTED_SUBSCRIPTION_FILE: &'static str = "subscription.url";

pub const STORED_SUBSCRIPTION_PREFIX: &'static str = "source-";

pub const STORED_SUBSCRIPTION_SUFFIX: &'static str = ".url";

pub const QX_RULE_SOURCE_PREFIX: &'static str = "qx-rule-";

pub const QX_RULE_SOURCE_SUFFIX: &'static str = ".qxrules";

/// The longest identifier of a collapsed workspace group.
pub const MAX_WORKSPACE_GROUP_ID_BYTES: usize = 160;

/// A generated identifier: `prefix`, then a non-empty run of hexadecimal digits and hyphens.
pub open spec fn is_stored_id(id: Seq<char>, prefix: Seq<char>) -> bool {
    &&& has_prefix(id, prefix)
    &&& id.len() > prefix.len()
    &&& forall|i: int|
        prefix.len() <= i < id.len() ==> is_ascii_hexdigit(#[trigger] id[i]) || id[i] == '-'
}

pub open spec fn is_workspace_group_char(c: char) -> bool {
    is_ascii_alphanumeric(c) || c == ':' || c == '-' || c == '_'
}

/// An identifier that may be kept in the collapsed-groups state.
pub open spec fn is_workspace_group_id(id: Seq<char>) -> bool {
    &&& 0 < id.len() <= MAX_WORKSPACE_GROUP_ID_BYTES
    &&& forall|i: int| 0 <= i < id.len() ==> is_workspace_group_char(#[trigger] id[i])
}

pub open spec fn is_subscription_source_id(id: Seq<char>) -> bool {
    id == LEGACY_SUBSCRIPTION_ID@ || is_stored_id(id, STORED_SUBSCRIPTION_PREFIX@)
}

/// The identifier text generated from a clock reading and a sequence number.
pub open spec fn stored_source_id_text(prefix: Seq<char>, timestamp: nat, sequence: nat) -> Seq<
    char,
> {
    prefix + hex_lower(timestamp) + seq!['-'] + hex_lower(sequence)
}

/// Whether `id` is `prefix` followed by a non-empty run of hexadecimal digits and hyphens.
pub fn valid_stored_id(id: &str, prefix: &str) -> (r: bool)
    ensures
        r == is_stored_id(id@, prefix@),
{
    let v = chars_of(id);
    let p = chars_of(prefix);
    if !starts_with(v.as_slice(), p.as_slice()) || v.len() == p.len() {
        return false;
    }
    let mut i: usize = p.len();
    while i < v.len()
        invariant
            p.len() <= i <= v.len(),
            v@ == id@,
            p@ == prefix@,
            forall|j: int| p.len() <= j < i ==> is_ascii_hexdigit(#[trigger] v@[j]) || v@[j] == '-',
        decreases v.len() - i,
    {
        if !char_is_ascii_hexdigit(v[i]) && v[i] != '-' {
            return false;
        }
        i = i + 1;
    }
    true
}

/// Whether `id` may be kept in the collapsed-groups state.
pub fn valid_workspace_group_id(id: &str) -> (r: bool)
    ensures
        r == is_workspace_group_id(id@),
{
    let v = chars_of(id);
    if v.len() == 0 || v.len() > MAX_WORKSPACE_GROUP_ID_BYTES {
        return false;
    }
    let mut i: usize = 0;
    while i < v.len()
        invariant
            i <= v.len(),
            v@ == id@,
            forall|j: int| 0 <= j < i ==> is_workspace_group_char(#[trigger] v@[j]),
        decreases v.len() - i,
    {
        let c = v[i];
        if !char_is_ascii_alphanumeric(c) && c != ':' && c != '-' && c != '_' {
            return false;
        }
        i = i + 1;
    }
    true
}

fn is_legacy_id(id: &str) -> (r: bool)
    ensures
        r == (id@ == LEGACY_SUBSCRIPTION_ID@),
{
    let v = chars_of(id);
    let l = chars_of(LEGACY_SUBSCRIPTION_ID);
    chars_equal(v.as_slice(), l.as_slice())
}

/// Whether `id` names a saved subscription: the legacy one or a generated one.
pub fn valid_subscription_source_id(id: &str) -> (r: bool)
    ensures
        r == is_subscription_source_id(id@),
{
    is_legacy_id(id) || valid_stored_id(id, STORED_SUBSCRIPTION_PREFIX)
}

fn joined(a: &str, b: &str) -> (r: String)
    ensures
        r@ == a@ + b@,
{
    let mut out = String::new();
    let va = chars_of(a);
    let vb = chars_of(b);
    push_chars(&mut out, va.as_slice());
    push_chars(&mut out, vb.as_slice());
    out
}

/// The file that holds the saved subscription `id`.
pub fn subscription_source_file_name(id: &str) -> (r: Result<String, SubscriptionStoreError>)
    ensures
        id@ == LEGACY_SUBSCRIPTION_ID@ ==> (r matches Ok(name) && name@
            == IMPORTED_SUBSCRIPTION_FILE@),
        id@ != LEGACY_SUBSCRIPTION_ID@ && is_stored_id(id@, STORED_SUBSCRIPTION_PREFIX@) ==> (
        r matches Ok(name) && name@ == id@ + STORED_SUBSCRIPTION_SUFFIX@),
        !is_subscription_source_id(id@) ==> r == Err::<String, SubscriptionStoreError>(
            SubscriptionStoreError::StoreUnavailable,
        ),
{
    if is_legacy_id(id) {
        Ok(IMPORTED_SUBSCRIPTION_FILE.to_owned())
    } else if valid_stored_id(id, STORED_SUBSCRIPTION_PREFIX) {
        Ok(joined(id, STORED_SUBSCRIPTION_SUFFIX))
    } else {
        Err(SubscriptionStoreError::StoreUnavailable)
    }
}

/// The file that holds the saved QX rule source `id`.
pub fn qx_rule_source_file_name(id: &str) -> (r: Result<String, SubscriptionStoreError>)
    ensures
        is_stored_id(id@, QX_RULE_SOURCE_PREFIX@) ==> (r matches Ok(name) && name@ == id@
            + QX_RULE_SOURCE_SUFFIX@),
        !is_stored_id(id@, QX_RULE_SOURCE_PREFIX@) ==> r == Err::<String, SubscriptionStoreError>(
            SubscriptionStoreError::StoreUnavailable,
        ),
{
    if valid_stored_id(id, QX_RULE_SOURCE_PREFIX) {
        Ok(joined(id, QX_RULE_SOURCE_SUFFIX))
    } else {
        Err(SubscriptionStoreError::StoreUnavailable)
    }
}

/// The identifier of a new saved source: `prefix`, the clock reading in nanoseconds and the
/// process-wide sequence number, both in lower-case hexadecimal.
pub fn stored_source_id(prefix: &str, timestamp: u128, sequence: u64) -> (r: String)
    ensures
        r@ == stored_source_id_text(prefix@, timestamp as nat, sequence as nat),
{
    let mut out = String::new();
    let p = chars_of(prefix);
    push_chars(&mut out, p.as_slice());
    push_hex(&mut out, timestamp);
    out.push('-');
    push_hex(&mut out, sequence as u128);
    out
}

proof fn lemma_hex_lower_digits(n: nat)
    ensures
        hex_lower(n).len() >= 1,
        forall|i: int| 0 <= i < hex_lower(n).len() ==> is_ascii_hexdigit(#[trigger] hex_lower(n)[i]),
    decreases n,
{
    let d = digit_char(n % 16);
    assert(is_ascii_hexdigit(d)) by {
        if n % 16 < 10 {
            assert(d as u32 == n % 16 + 48);
        } else {
            assert(d as u32 == n % 16 + 87);
        }
    }
    if n >= 16 {
        lemma_hex_lower_digits(n / 16);
    }
}

/// Every generated identifier is a valid stored identifier for its prefix.
pub proof fn lemma_generated_id_is_valid(prefix: Seq<char>, timestamp: nat, sequence: nat)
    ensures
        is_stored_id(stored_source_id_text(prefix, timestamp, sequence), prefix),
{
    lemma_hex_lower_digits(timestamp);
    lemma_hex_lower_digits(sequence);
    let a = hex_lower(timestamp);
    let b = hex_lower(sequence);
    let id = stored_source_id_text(prefix, timestamp, sequence);
    assert(id.take(prefix.len() as int) =~= prefix);
    assert forall|i: int| prefix.len() <= i < id.len() implies is_ascii_hexdigit(#[trigger] id[i])
        || id[i] == '-' by {
        if i < prefix.len() + a.len() {
            assert(id[i] == a[i - prefix.len()]);
        } else if i > prefix.len() + a.len() {
            assert(id[i] == b[i - prefix.len() - a.len() - 1]);
        }
    }
}

proof fn lemma_hex_digit_value(d: nat)
    requires
        d < 16,
    ensures
        digit_char(d) as u32 == if d < 10 {
            d + 48
        } else {
            d + 87
        },
{
}

proof fn lemma_hex_lower_injective(a: nat, b: nat)
    requires
        hex_lower(a) == hex_lower(b),
    ensures
        a == b,
    decreases a,
{
    lemma_hex_lower_digits(a / 16);
    lemma_hex_lower_digits(b / 16);
    let x = hex_lower(a);
    lemma_hex_digit_value(a % 16);
    lemma_hex_digit_value(b % 16);
    assert(x.last() == digit_char(a % 16));
    assert(x.last() == digit_char(b % 16));
    assert(a % 16 == b % 16);
    if a >= 16 && b >= 16 {
        assert(hex_lower(a / 16) =~= x.drop_last());
        assert(hex_lower(b / 16) =~= x.drop_last());
        lemma_hex_lower_injective(a / 16, b / 16);
    }
}

/// Identifiers generated from different clock readings or sequence numbers differ.
pub proof fn lemma_generated_ids_differ(
    prefix: Seq<char>,
    timestamp: nat,
    sequence: nat,
    other_timestamp: nat,
    other_sequence: nat,
)
    requires
        timestamp != other_timestamp || sequence != other_sequence,
    ensures
        stored_source_id_text(prefix, timestamp, sequence) != stored_source_id_text(
            prefix,
            other_timestamp,
            other_sequence,
        ),
{
    lemma_hex_lower_digits(timestamp);
    lemma_hex_lower_digits(sequence);
    lemma_hex_lower_digits(other_timestamp);
    lemma_hex_lower_digits(other_sequence);
    let a = hex_lower(timestamp);
    let b = hex_lower(sequence);
    let c = hex_lower(other_timestamp);
    let d = hex_lower(other_sequence);
    let x = stored_source_id_text(prefix, timestamp, sequence);
    let y = stored_source_id_text(prefix, other_timestamp, other_sequence);
    let n = prefix.len() as int;
    if x == y {
        if a.len() < c.len() {
            assert(x[n + a.len()] == '-');
            assert(y[n + a.len()] == c[a.len() as int]);
            assert(is_ascii_hexdigit(c[a.len() as int]));
        } else if c.len() < a.len() {
            assert(y[n + c.len()] == '-');
            assert(x[n + c.len()] == a[c.len() as int]);
            assert(is_ascii_hexdigit(a[c.len() as int]));
        } else {
            assert(a =~= x.subrange(n, n + a.len()));
            assert(c =~= y.subrange(n, n + c.len()));
            lemma_hex_lower_injective(timestamp, other_timestamp);
            assert(b =~= x.skip(n + a.len() + 1));
            assert(d =~= y.skip(n + c.len() + 1));
            lemma_hex_lower_injective(sequence, other_sequence);
        }
    }
}

/// The first line of a saved subscription in the versioned format.
pub const STORED_SUBSCRIPTION_VERSION: &'static str = "relay-subscription-source-v1";

/// A saved subscription; its URL never appears in debug output.
#[derive(Clone, PartialEq, Eq)]
pub struct StoredSubscription {
    pub id: String,
    pub source: SecretUrl,
    pub refresh_interval: RemoteSourceRefreshInterval,
    pub last_successful_update_unix_secs: u64,
}

impl core::fmt::Debug for StoredSubscription {
    /// Writes the identifier and the refresh metadata, with a redacted marker for the URL.
    #[verifier::external_body]
    fn fmt(&self, formatter: &mut core::fmt::Formatter<'_>) -> core::fmt::Result {
        formatter.debug_struct("StoredSubscription").field("id", &self.id).field(
            "source",
            &"<redacted>",
        ).field("refresh_interval", &self.refresh_interval).field(
            "last_successful_update_unix_secs",
            &self.last_successful_update_unix_secs,
        ).finish()
    }
}

/// A saved subscription read back, with the URL text it was saved from.
pub struct DecodedSubscriptionSource {
    pub stored: StoredSubscription,
    pub url_input: String,
}

/// A URL that parses as a subscription.
pub open spec fn is_subscription_input(url: Seq<char>) -> bool {
    is_subscription_url(url) && byte_len(url) <= MAX_SECRET_URL_BYTES
}

/// One `key<TAB>value` line of the versioned format.
pub open spec fn field_line(key: Seq<char>, value: Seq<char>) -> Seq<char> {
    key + seq!['\t'] + value
}

/// The versioned text of a saved subscription.
pub open spec fn source_record(
    id: Seq<char>,
    url: Seq<char>,
    refresh: RemoteSourceRefreshInterval,
    last_success: u64,
) -> Seq<char> {
    STORED_SUBSCRIPTION_VERSION@ + seq!['\n'] + field_line("id"@, id) + seq!['\n'] + field_line(
        "url"@,
        encoded_hex(url),
    ) + seq!['\n'] + field_line("refresh"@, interval_key(refresh)) + seq!['\n'] + field_line(
        "last-success"@,
        decimal(last_success as nat),
    )
}

/// The fields read so far from the lines of a versioned record.
pub struct SourceFields {
    pub id: Option<Seq<char>>,
    pub url: Option<Seq<char>>,
    pub refresh: Option<RemoteSourceRefreshInterval>,
    pub last_success: Option<u64>,
}

pub open spec fn no_fields() -> SourceFields {
    SourceFields { id: None, url: None, refresh: None, last_success: None }
}

/// Reads one line into `acc`: each key may appear once, and every line must be a known
/// `key<TAB>value` pair whose value parses.
pub open spec fn read_field(acc: SourceFields, line: Seq<char>) -> Option<SourceFields> {
    let f = split_all(line, '\t');
    if f.len() == 2 && f[0] == "id"@ && acc.id is None {
        Some(SourceFields { id: Some(f[1]), ..acc })
    } else if f.len() == 2 && f[0] == "url"@ && acc.url is None {
        match decoded_hex(f[1]) {
            Some(u) => Some(SourceFields { url: Some(u), ..acc }),
            None => None,
        }
    } else if f.len() == 2 && f[0] == "refresh"@ && acc.refresh is None {
        match interval_for_key(f[1]) {
            Some(i) => Some(SourceFields { refresh: Some(i), ..acc }),
            None => None,
        }
    } else if f.len() == 2 && f[0] == "last-success"@ && acc.last_success is None {
        match parse_unsigned(f[1], u64::MAX as nat) {
            Some(n) => Some(SourceFields { last_success: Some(n as u64), ..acc }),
            None => None,
        }
    } else {
        None
    }
}

/// The fields of a sequence of record lines, or `None` when one of them is rejected.
pub open spec fn read_fields(ls: Seq<Seq<char>>) -> Option<SourceFields>
    decreases ls.len(),
{
    if ls.len() == 0 {
        Some(no_fields())
    } else {
        match read_fields(ls.drop_last()) {
            Some(acc) => read_field(acc, ls.last()),
            None => None,
        }
    }
}

/// What a saved subscription file reads as, for the source `expected`: its identifier, URL,
/// refresh interval and last successful update. A file without the version line is a legacy
/// file that holds the bare URL on a single line.
pub open spec fn decoded_source(contents: Seq<char>, expected: Seq<char>) -> Option<
    (Seq<char>, Seq<char>, RemoteSourceRefreshInterval, u64),
> {
    let ls = lines(contents);
    if !is_subscription_source_id(expected) {
        None
    } else if ls.len() == 0 || ls[0] != STORED_SUBSCRIPTION_VERSION@ {
        if contents.len() == 0 || ls.len() != 1 || trim(contents) != contents
            || !is_subscription_input(contents) {
            None
        } else {
            Some((expected, contents, RemoteSourceRefreshInterval::Manual, 0u64))
        }
    } else {
        match read_fields(ls.skip(1)) {
            Some(f) => if f.id == Some(expected) && f.url is Some && is_subscription_input(
                f.url.unwrap(),
            ) {
                Some(
                    (
                        expected,
                        f.url.unwrap(),
                        match f.refresh {
                            Some(i) => i,
                            None => RemoteSourceRefreshInterval::Manual,
                        },
                        match f.last_success {
                            Some(n) => n,
                            None => 0u64,
                        },
                    ),
                )
            } else {
                None
            },
            None => None,
        }
    }
}

/// The versioned text of a saved subscription.
pub fn encode_subscription_source(
    id: &str,
    url_input: &str,
    refresh_interval: RemoteSourceRefreshInterval,
    last_successful_update_unix_secs: u64,
) -> (r: Result<String, SubscriptionStoreError>)
    ensures
        r is Ok <==> is_subscription_source_id(id@) && byte_len(url_input@)
            <= MAX_SUBSCRIPTION_BYTES && is_subscription_input(url_input@),
        r matches Ok(text) ==> text@ == source_record(
            id@,
            url_input@,
            refresh_interval,
            last_successful_update_unix_secs,
        ),
        r matches Err(e) ==> e == SubscriptionStoreError::InvalidSource,
{
    if !valid_subscription_source_id(id) {
        return Err(SubscriptionStoreError::InvalidSource);
    }
    if url_input.len() > MAX_SUBSCRIPTION_BYTES {
        return Err(SubscriptionStoreError::InvalidSource);
    }
    if SecretUrl::parse_subscription(url_input).is_err() {
        return Err(SubscriptionStoreError::InvalidSource);
    }
    let mut out = String::new();
    let version = chars_of(STORED_SUBSCRIPTION_VERSION);
    push_chars(&mut out, version.as_slice());
    out.push('\n');
    let key = chars_of("id");
    push_chars(&mut out, key.as_slice());
    out.push('\t');
    let v = chars_of(id);
    push_chars(&mut out, v.as_slice());
    out.push('\n');
    let key = chars_of("url");
    push_chars(&mut out, key.as_slice());
    out.push('\t');
    let hex = encode_hex(url_input);
    let v = chars_of(hex.as_str());
    push_chars(&mut out, v.as_slice());
    out.push('\n');
    let key = chars_of("refresh");
    push_chars(&mut out, key.as_slice());
    out.push('\t');
    let v = chars_of(refresh_interval.key());
    push_chars(&mut out, v.as_slice());
    out.push('\n');
    let key = chars_of("last-success");
    push_chars(&mut out, key.as_slice());
    out.push('\t');
    push_decimal(&mut out, last_successful_update_unix_secs as u128);
    assert(out@ =~= source_record(
        id@,
        url_input@,
        refresh_interval,
        last_successful_update_unix_secs,
    ));
    Ok(out)
}

pub open spec fn opt_view(o: Option<String>) -> Option<Seq<char>> {
    match o {
        Some(s) => Some(s@),
        None => None,
    }
}

/// Once a line is rejected, no later line can make the record readable.
proof fn lemma_read_fields_rejected(ls: Seq<Seq<char>>, k: int)
    requires
        0 <= k <= ls.len(),
        read_fields(ls.take(k)) is None,
    ensures
        read_fields(ls) is None,
    decreases ls.len(),
{
    if k < ls.len() {
        assert(ls.drop_last().take(k) =~= ls.take(k));
        lemma_read_fields_rejected(ls.drop_last(), k);
    } else {
        assert(ls.take(k) =~= ls);
    }
}

pub(crate) fn is_key(v: &Vec<char>, key: &str) -> (r: bool)
    ensures
        r == (v@ == key@),
{
    let k = chars_of(key);
    chars_equal(v.as_slice(), k.as_slice())
}

/// Reads a saved subscription file for the source `expected_id`; any deviation from the
/// format makes the stored source unreadable.
pub fn decode_subscription_source(contents: &str, expected_id: &str) -> (r: Result<
    DecodedSubscriptionSource,
    SubscriptionStoreError,
>)
    ensures
        match decoded_source(contents@, expected_id@) {
            Some((id, url, refresh, last)) => r matches Ok(d) && d.stored.id@ == id && d.url_input@
                == url && d.stored.source@ == url && d.stored.refresh_interval == refresh
                && d.stored.last_successful_update_unix_secs == last,
            None => r matches Err(e) && e == SubscriptionStoreError::StoredSourceUnavailable,
        },
{
    if !valid_subscription_source_id(expected_id) {
        return Err(SubscriptionStoreError::StoredSourceUnavailable);
    }
    let v = chars_of(contents);
    let ls = lines_of(v.as_slice());
    let ghost gl = lines(contents@);
    assert(views(ls@) == gl);
    if ls.len() == 0 || !is_key(&ls[0], STORED_SUBSCRIPTION_VERSION) {
        proof {
            if ls.len() > 0 {
                assert(views(ls@)[0] == ls@[0]@);
            }
        }
        let trimmed = trim_chars(v.as_slice());
        if v.len() == 0 || ls.len() != 1 || !chars_equal(trimmed.as_slice(), v.as_slice()) {
            return Err(SubscriptionStoreError::StoredSourceUnavailable);
        }
        let source = match SecretUrl::parse_subscription(contents) {
            Ok(source) => source,
            Err(_) => return Err(SubscriptionStoreError::StoredSourceUnavailable),
        };
        return Ok(
            DecodedSubscriptionSource {
                stored: StoredSubscription {
                    id: expected_id.to_owned(),
                    source,
                    refresh_interval: RemoteSourceRefreshInterval::Manual,
                    last_successful_update_unix_secs: 0,
                },
                url_input: contents.to_owned(),
            },
        );
    }
    assert(views(ls@)[0] == ls@[0]@);
    let mut id: Option<String> = None;
    let mut url: Option<String> = None;
    let mut refresh_interval: Option<RemoteSourceRefreshInterval> = None;
    let mut last_success: Option<u64> = None;
    let mut i: usize = 1;
    assert(gl.subrange(1, 1) =~= Seq::<Seq<char>>::empty());
    while i < ls.len()
        invariant
            1 <= i <= ls.len(),
            views(ls@) == gl,
            gl == lines(contents@),
            gl[0] == STORED_SUBSCRIPTION_VERSION@,
            is_subscription_source_id(expected_id@),
            read_fields(gl.subrange(1, i as int)) == Some(
                SourceFields {
                    id: opt_view(id),
                    url: opt_view(url),
                    refresh: refresh_interval,
                    last_success,
                },
            ),
        decreases ls.len() - i,
    {
        let ghost acc = SourceFields {
            id: opt_view(id),
            url: opt_view(url),
            refresh: refresh_interval,
            last_success,
        };
        let ghost line = gl[i as int];
        assert(gl.subrange(1, i + 1).drop_last() =~= gl.subrange(1, i as int));
        assert(gl.subrange(1, i + 1).last() == line);
        assert(ls@[i as int]@ == line);
        proof {
            if read_fields(gl.subrange(1, i + 1)) is None {
                assert(gl.skip(1).take(i as int) =~= gl.subrange(1, i + 1));
                lemma_read_fields_rejected(gl.skip(1), i as int);
            }
        }
        let fields = split_chars(ls[i].as_slice(), '\t', None);
        let ghost f = split_all(line, '\t');
        assert(views(fields@) == f);
        if fields.len() != 2 {
            return Err(SubscriptionStoreError::StoredSourceUnavailable);
        }
        assert(f[0] == fields@[0]@);
        assert(f[1] == fields@[1]@);
        if is_key(&fields[0], "id") && id.is_none() {
            id = Some(string_of(fields[1].as_slice()));
        } else if is_key(&fields[0], "url") && url.is_none() {
            let text = string_of(fields[1].as_slice());
            match decode_hex(text.as_str()) {
                Ok(u) => {
                    url = Some(u);
                },
                Err(_) => return Err(SubscriptionStoreError::StoredSourceUnavailable),
            }
        } else if is_key(&fields[0], "refresh") && refresh_interval.is_none() {
            let text = string_of(fields[1].as_slice());
            match RemoteSourceRefreshInterval::parse_key(text.as_str()) {
                Some(interval) => {
                    refresh_interval = Some(interval);
                },
                None => return Err(SubscriptionStoreError::StoredSourceUnavailable),
            }
        } else if is_key(&fields[0], "last-success") && last_success.is_none() {
            match parse_unsigned_exec(fields[1].as_slice(), u64::MAX as u128) {
                Some(n) => {
                    last_success = Some(n as u64);
                },
                None => return Err(SubscriptionStoreError::StoredSourceUnavailable),
            }
        } else {
            return Err(SubscriptionStoreError::StoredSourceUnavailable);
        }
        i = i + 1;
    }
    assert(gl.subrange(1, ls.len() as int) =~= gl.skip(1));
    let id = match id {
        Some(id) => id,
        None => return Err(SubscriptionStoreError::StoredSourceUnavailable),
    };
    if !str_equal(id.as_str(), expected_id) || !valid_subscription_source_id(id.as_str()) {
        return Err(SubscriptionStoreError::StoredSourceUnavailable);
    }
    let url_input = match url {
        Some(url) => url,
        None => return Err(SubscriptionStoreError::StoredSourceUnavailable),
    };
    let source = match SecretUrl::parse_subscription(url_input.as_str()) {
        Ok(source) => source,
        Err(_) => return Err(SubscriptionStoreError::StoredSourceUnavailable),
    };
    let refresh_interval = match refresh_interval {
        Some(interval) => interval,
        None => RemoteSourceRefreshInterval::Manual,
    };
    let last_successful_update_unix_secs = match last_success {
        Some(n) => n,
        None => 0,
    };
    Ok(
        DecodedSubscriptionSource {
            stored: StoredSubscription {
                id,
                source,
                refresh_interval,
                last_successful_update_unix_secs,
            },
            url_input,
        },
    )
}

/// No line break and no tab.
pub open spec fn is_plain_field(s: Seq<char>) -> bool {
    forall|i: int| 0 <= i < s.len() ==> #[trigger] s[i] != '\n' && s[i] != '\r' && s[i] != '\t'
}

pub proof fn lemma_split_field(key: Seq<char>, value: Seq<char>)
    requires
        is_plain_field(key),
        is_plain_field(value),
    ensures
        split_all(field_line(key, value), '\t') == seq![key, value],
        is_plain_field_line(field_line(key, value)),
        field_line(key, value).len() > 0,
{
    let s = field_line(key, value);
    assert forall|j: int| 0 <= j < key.len() implies #[trigger] s[j] != '\t' by {
        assert(s[j] == key[j]);
    }
    lemma_find_char(s, '\t', key.len() as int);
    assert(s.take(key.len() as int) =~= key);
    assert(s.skip(key.len() + 1 as int) =~= value);
    lemma_find_char(value, '\t', value.len() as int);
    assert(split_all(value, '\t') == seq![value]);
    assert(split_all(s, '\t') == seq![key] + split_all(value, '\t'));
    assert(seq![key] + seq![value] =~= seq![key, value]);
    assert forall|j: int| 0 <= j < s.len() implies #[trigger] s[j] != '\n' && s[j] != '\r' by {
        if j < key.len() {
            assert(s[j] == key[j]);
        } else if j > key.len() {
            assert(s[j] == value[j - key.len() - 1]);
        }
    }
}

/// No line break (a tab may occur).
pub open spec fn is_plain_field_line(s: Seq<char>) -> bool {
    forall|i: int| 0 <= i < s.len() ==> #[trigger] s[i] != '\n' && s[i] != '\r'
}

pub proof fn lemma_line_cons(a: Seq<char>, rest: Seq<char>)
    requires
        is_plain_field_line(a),
        a.len() > 0,
    ensures
        lines(a + seq!['\n'] + rest) == seq![a] + lines(rest),
{
    let s = a + seq!['\n'] + rest;
    assert forall|j: int| 0 <= j < a.len() implies #[trigger] s[j] != '\n' by {
        assert(s[j] == a[j]);
    }
    lemma_find_char(s, '\n', a.len() as int);
    assert(s.take(a.len() as int) =~= a);
    assert(s.skip(a.len() + 1 as int) =~= rest);
    assert(strip_cr(a) == a);
}

pub proof fn lemma_line_one(a: Seq<char>)
    requires
        is_plain_field_line(a),
        a.len() > 0,
    ensures
        lines(a) == seq![a],
{
    lemma_find_char(a, '\n', a.len() as int);
}

pub proof fn lemma_source_id_plain(id: Seq<char>)
    requires
        is_subscription_source_id(id),
    ensures
        is_plain_field(id),
{
    reveal_strlit("subscription:legacy");
    reveal_strlit("source-");
    if id != LEGACY_SUBSCRIPTION_ID@ {
        assert forall|i: int| 0 <= i < id.len() implies #[trigger] id[i] != '\n' && id[i] != '\r'
            && id[i] != '\t' by {
            if i < 7 {
                assert(id[i] == id.take(7)[i]);
            }
        }
    }
}

pub proof fn lemma_hex_plain(url: Seq<char>)
    ensures
        is_plain_field(encoded_hex(url)),
{
    let b = vstd::utf8::encode_utf8(url);
    let h = encoded_hex(url);
    assert forall|i: int| 0 <= i < h.len() implies #[trigger] h[i] != '\n' && h[i] != '\r' && h[i]
        != '\t' by {
        lemma_hex_digit((b[i / 2] / 16) as nat);
        lemma_hex_digit((b[i / 2] % 16) as nat);
    }
}

pub proof fn lemma_interval_key_plain(i: RemoteSourceRefreshInterval)
    ensures
        is_plain_field(interval_key(i)),
{
    reveal_strlit("manual");
    reveal_strlit("1h");
    reveal_strlit("6h");
    reveal_strlit("12h");
    reveal_strlit("24h");
}

pub proof fn lemma_decimal_plain(n: nat)
    ensures
        is_plain_field(decimal(n)),
{
    lemma_decimal_digits(n);
    let d = decimal(n);
    assert forall|i: int| 0 <= i < d.len() implies #[trigger] d[i] != '\n' && d[i] != '\r' && d[i]
        != '\t' by {
        assert(crate::text::is_ascii_digit(d[i]));
    }
}

proof fn lemma_record_lines(
    id: Seq<char>,
    url: Seq<char>,
    refresh: RemoteSourceRefreshInterval,
    last_success: u64,
)
    requires
        is_subscription_source_id(id),
    ensures
        lines(source_record(id, url, refresh, last_success)) == seq![
            STORED_SUBSCRIPTION_VERSION@,
            field_line("id"@, id),
            field_line("url"@, encoded_hex(url)),
            field_line("refresh"@, interval_key(refresh)),
            field_line("last-success"@, decimal(last_success as nat)),
        ],
{
    reveal_strlit("relay-subscription-source-v1");
    reveal_strlit("id");
    reveal_strlit("url");
    reveal_strlit("refresh");
    reveal_strlit("last-success");
    let version = STORED_SUBSCRIPTION_VERSION@;
    lemma_source_id_plain(id);
    lemma_hex_plain(url);
    lemma_interval_key_plain(refresh);
    lemma_decimal_plain(last_success as nat);
    lemma_split_field("id"@, id);
    lemma_split_field("url"@, encoded_hex(url));
    lemma_split_field("refresh"@, interval_key(refresh));
    lemma_split_field("last-success"@, decimal(last_success as nat));
    let l1 = field_line("id"@, id);
    let l2 = field_line("url"@, encoded_hex(url));
    let l3 = field_line("refresh"@, interval_key(refresh));
    let l4 = field_line("last-success"@, decimal(last_success as nat));
    let nl = seq!['\n'];
    let text = source_record(id, url, refresh, last_success);
    assert(text =~= version + nl + (l1 + nl + (l2 + nl + (l3 + nl + l4))));
    assert(is_plain_field_line(version));
    lemma_line_cons(version, l1 + nl + (l2 + nl + (l3 + nl + l4)));
    lemma_line_cons(l1, l2 + nl + (l3 + nl + l4));
    lemma_line_cons(l2, l3 + nl + l4);
    lemma_line_cons(l3, l4);
    lemma_line_one(l4);
    assert(lines(text) =~= seq![version, l1, l2, l3, l4]);
}

proof fn lemma_read_id(acc: SourceFields, id: Seq<char>)
    requires
        acc.id is None,
        is_plain_field(id),
    ensures
        read_field(acc, field_line("id"@, id)) == Some(SourceFields { id: Some(id), ..acc }),
{
    reveal_strlit("id");
    lemma_split_field("id"@, id);
}

proof fn lemma_read_url(acc: SourceFields, url: Seq<char>)
    requires
        acc.url is None,
    ensures
        read_field(acc, field_line("url"@, encoded_hex(url))) == Some(
            SourceFields { url: Some(url), ..acc },
        ),
{
    reveal_strlit("id");
    reveal_strlit("url");
    lemma_hex_plain(url);
    lemma_split_field("url"@, encoded_hex(url));
    lemma_hex_round_trip(url);
    assert("url"@ != "id"@);
}

proof fn lemma_read_refresh(acc: SourceFields, refresh: RemoteSourceRefreshInterval)
    requires
        acc.refresh is None,
    ensures
        read_field(acc, field_line("refresh"@, interval_key(refresh))) == Some(
            SourceFields { refresh: Some(refresh), ..acc },
        ),
{
    reveal_strlit("id");
    reveal_strlit("url");
    reveal_strlit("refresh");
    lemma_interval_key_plain(refresh);
    lemma_split_field("refresh"@, interval_key(refresh));
    lemma_interval_key_round_trip(refresh);
    assert("refresh"@ != "id"@ && "refresh"@ != "url"@);
}

proof fn lemma_read_last_success(acc: SourceFields, last_success: u64)
    requires
        acc.last_success is None,
    ensures
        read_field(acc, field_line("last-success"@, decimal(last_success as nat))) == Some(
            SourceFields { last_success: Some(last_success), ..acc },
        ),
{
    reveal_strlit("id");
    reveal_strlit("url");
    reveal_strlit("refresh");
    reveal_strlit("last-success");
    lemma_decimal_plain(last_success as nat);
    lemma_split_field("last-success"@, decimal(last_success as nat));
    lemma_decimal_parses(last_success as nat, u64::MAX as nat);
    assert("last-success"@ != "id"@ && "last-success"@ != "url"@ && "last-success"@
        != "refresh"@);
}

proof fn lemma_record_fields(
    id: Seq<char>,
    url: Seq<char>,
    refresh: RemoteSourceRefreshInterval,
    last_success: u64,
)
    requires
        is_subscription_source_id(id),
    ensures
        read_fields(
            seq![
                field_line("id"@, id),
                field_line("url"@, encoded_hex(url)),
                field_line("refresh"@, interval_key(refresh)),
                field_line("last-success"@, decimal(last_success as nat)),
            ],
        ) == Some(
            SourceFields {
                id: Some(id),
                url: Some(url),
                refresh: Some(refresh),
                last_success: Some(last_success),
            },
        ),
{
    lemma_source_id_plain(id);
    let l1 = field_line("id"@, id);
    let l2 = field_line("url"@, encoded_hex(url));
    let l3 = field_line("refresh"@, interval_key(refresh));
    let l4 = field_line("last-success"@, decimal(last_success as nat));
    let a0 = no_fields();
    let a1 = SourceFields { id: Some(id), ..a0 };
    let a2 = SourceFields { url: Some(url), ..a1 };
    let a3 = SourceFields { refresh: Some(refresh), ..a2 };
    let a4 = SourceFields { last_success: Some(last_success), ..a3 };
    lemma_read_id(a0, id);
    lemma_read_url(a1, url);
    lemma_read_refresh(a2, refresh);
    lemma_read_last_success(a3, last_success);
    let s1 = seq![l1];
    let s2 = seq![l1, l2];
    let s3 = seq![l1, l2, l3];
    let s4 = seq![l1, l2, l3, l4];
    assert(s1.drop_last() =~= Seq::<Seq<char>>::empty());
    assert(read_fields(Seq::<Seq<char>>::empty()) == Some(a0));
    assert(s1.last() == l1);
    assert(read_fields(s1) == Some(a1));
    assert(s2.drop_last() =~= s1);
    assert(read_fields(s2) == Some(a2));
    assert(s3.drop_last() =~= s2);
    assert(read_fields(s3) == Some(a3));
    assert(s4.drop_last() =~= s3);
    assert(read_fields(s4) == Some(a4));
}

/// A saved subscription reads back as the identifier, URL, refresh interval and last
/// successful update that were written.
pub proof fn lemma_source_record_round_trip(
    id: Seq<char>,
    url: Seq<char>,
    refresh: RemoteSourceRefreshInterval,
    last_success: u64,
)
    requires
        is_subscription_source_id(id),
        is_subscription_input(url),
    ensures
        decoded_source(source_record(id, url, refresh, last_success), id) == Some(
            (id, url, refresh, last_success),
        ),
{
    lemma_record_lines(id, url, refresh, last_success);
    lemma_record_fields(id, url, refresh, last_success);
    let ls = lines(source_record(id, url, refresh, last_success));
    assert(ls.skip(1) =~= seq![
        field_line("id"@, id),
        field_line("url"@, encoded_hex(url)),
        field_line("refresh"@, interval_key(refresh)),
        field_line("last-success"@, decimal(last_success as nat)),
    ]);
}

pub const SAVED_VLESS_PREFIX: &'static str = "saved-";

pub const SAVED_VLESS_SUFFIX: &'static str = ".vless";

pub open spec fn has_suffix(s: Seq<char>, x: Seq<char>) -> bool {
    x.len() <= s.len() && s.skip(s.len() - x.len()) == x
}

/// The identifier that a store file name stands for: `prefix`-identifier plus `suffix`.
pub open spec fn stored_id_of_file(name: Seq<char>, prefix: Seq<char>, suffix: Seq<char>) -> Option<
    Seq<char>,
> {
    if has_suffix(name, suffix) && is_stored_id(name.take(name.len() - suffix.len()), prefix) {
        Some(name.take(name.len() - suffix.len()))
    } else {
        None
    }
}

/// A store file named after a stored identifier and `suffix` is read as that identifier.
pub proof fn lemma_stored_file_round_trip(id: Seq<char>, prefix: Seq<char>, suffix: Seq<char>)
    requires
        is_stored_id(id, prefix),
    ensures
        stored_id_of_file(id + suffix, prefix, suffix) == Some(id),
{
    let name = id + suffix;
    assert(name.skip(name.len() - suffix.len()) =~= suffix);
    assert(name.take(name.len() - suffix.len()) =~= id);
}

/// Every saved subscription's file leads back to it: the legacy identifier is kept in the
/// imported file, which is read as the legacy identifier, and a generated identifier in its
/// own `.url` file, which is never the imported file and is read as that identifier.
pub proof fn lemma_subscription_file_round_trip(id: Seq<char>)
    requires
        is_subscription_source_id(id),
    ensures
        id == LEGACY_SUBSCRIPTION_ID@ || (id + STORED_SUBSCRIPTION_SUFFIX@
            != IMPORTED_SUBSCRIPTION_FILE@ && stored_id_of_file(
            id + STORED_SUBSCRIPTION_SUFFIX@,
            STORED_SUBSCRIPTION_PREFIX@,
            STORED_SUBSCRIPTION_SUFFIX@,
        ) == Some(id)),
{
    if id != LEGACY_SUBSCRIPTION_ID@ {
        reveal_strlit("source-");
        reveal_strlit("subscription.url");
        lemma_stored_file_round_trip(id, STORED_SUBSCRIPTION_PREFIX@, STORED_SUBSCRIPTION_SUFFIX@);
        let name = id + STORED_SUBSCRIPTION_SUFFIX@;
        assert(id.take(7) == "source-"@);
        assert(name[1] == id[1]);
        assert(id[1] == "source-"@[1]);
        assert(name[1] != IMPORTED_SUBSCRIPTION_FILE@[1]);
    }
}

/// The identifier of the source in a store file, if the file is one of `prefix` and `suffix`.
pub fn stored_id_for_file(file_name: &str, prefix: &str, suffix: &str) -> (r: Option<String>)
    ensures
        match stored_id_of_file(file_name@, prefix@, suffix@) {
            Some(id) => r matches Some(s) && s@ == id,
            None => r is None,
        },
{
    let v = chars_of(file_name);
    let x = chars_of(suffix);
    if x.len() > v.len() {
        return None;
    }
    let tail = crate::text::slice_chars(v.as_slice(), v.len() - x.len(), v.len());
    if !chars_equal(tail.as_slice(), x.as_slice()) {
        return None;
    }
    let head = crate::text::slice_chars(v.as_slice(), 0, v.len() - x.len());
    let id = string_of(head.as_slice());
    if valid_stored_id(id.as_str(), prefix) {
        Some(id)
    } else {
        None
    }
}

/// The identifier of the saved subscription in a store file: the legacy file, or a
/// generated identifier plus `.url`.
pub fn subscription_source_id_for_file(file_name: &str) -> (r: Option<String>)
    ensures
        file_name@ == IMPORTED_SUBSCRIPTION_FILE@ ==> (r matches Some(id) && id@
            == LEGACY_SUBSCRIPTION_ID@),
        file_name@ != IMPORTED_SUBSCRIPTION_FILE@ ==> match stored_id_of_file(
            file_name@,
            STORED_SUBSCRIPTION_PREFIX@,
            STORED_SUBSCRIPTION_SUFFIX@,
        ) {
            Some(id) => r matches Some(s) && s@ == id,
            None => r is None,
        },
{
    let v = chars_of(file_name);
    let f = chars_of(IMPORTED_SUBSCRIPTION_FILE);
    if chars_equal(v.as_slice(), f.as_slice()) {
        Some(LEGACY_SUBSCRIPTION_ID.to_owned())
    } else {
        stored_id_for_file(file_name, STORED_SUBSCRIPTION_PREFIX, STORED_SUBSCRIPTION_SUFFIX)
    }
}

/// A saved single-line source: non-empty, one line, no surrounding white space.
pub fn single_line_source(contents: String) -> (r: Result<String, SubscriptionStoreError>)
    ensures
        contents@.len() > 0 && lines(contents@).len() == 1 && trim(contents@) == contents@ ==> (r
            matches Ok(s) && s@ == contents@),
        !(contents@.len() > 0 && lines(contents@).len() == 1 && trim(contents@) == contents@) ==> (
        r matches Err(e) && e == SubscriptionStoreError::StoredSourceUnavailable),
{
    let v = chars_of(contents.as_str());
    if v.len() == 0 {
        return Err(SubscriptionStoreError::StoredSourceUnavailable);
    }
    let ls = lines_of(v.as_slice());
    assert(views(ls@).len() == ls@.len());
    let t = trim_chars(v.as_slice());
    if ls.len() != 1 || !chars_equal(t.as_slice(), v.as_slice()) {
        return Err(SubscriptionStoreError::StoredSourceUnavailable);
    }
    Ok(contents)
}

/// Ordered by identifier, equal identifiers allowed.
pub open spec fn sorted_ids(ids: Seq<Seq<char>>) -> bool {
    forall|i: int, j: int| 0 <= i < j < ids.len() ==> !chars_lt(ids[j], ids[i])
}

/// Strictly ordered by identifier: sorted, and no identifier twice.
pub open spec fn strictly_sorted_ids(ids: Seq<Seq<char>>) -> bool {
    forall|i: int, j: int| 0 <= i < j < ids.len() ==> chars_lt(ids[i], ids[j])
}

/// Where `x` goes in sorted `ids`: before the first identifier that it sorts before.
pub open spec fn insertion_point(ids: Seq<Seq<char>>, x: Seq<char>) -> nat
    decreases ids.len(),
{
    if ids.len() == 0 {
        0
    } else if chars_lt(x, ids[0]) {
        0
    } else {
        1 + insertion_point(ids.drop_first(), x)
    }
}

proof fn lemma_insertion_point(ids: Seq<Seq<char>>, x: Seq<char>, k: int)
    requires
        0 <= k <= ids.len(),
        forall|j: int| 0 <= j < k ==> !chars_lt(x, #[trigger] ids[j]),
        k == ids.len() || chars_lt(x, ids[k]),
    ensures
        insertion_point(ids, x) == k,
    decreases k,
{
    if k > 0 {
        let t = ids.drop_first();
        assert forall|j: int| 0 <= j < k - 1 implies !chars_lt(x, #[trigger] t[j]) by {
            assert(t[j] == ids[j + 1]);
        }
        if k - 1 < t.len() {
            assert(t[k - 1] == ids[k]);
        }
        lemma_insertion_point(t, x, k - 1);
    }
}

proof fn lemma_insertion_point_bound(ids: Seq<Seq<char>>, x: Seq<char>)
    ensures
        insertion_point(ids, x) <= ids.len(),
        forall|j: int| 0 <= j < insertion_point(ids, x) ==> !chars_lt(x, #[trigger] ids[j]),
        insertion_point(ids, x) == ids.len() || chars_lt(x, ids[insertion_point(ids, x) as int]),
    decreases ids.len(),
{
    if ids.len() > 0 && !chars_lt(x, ids[0]) {
        let t = ids.drop_first();
        lemma_insertion_point_bound(t, x);
        assert forall|j: int| 0 <= j < insertion_point(ids, x) implies !chars_lt(
            x,
            #[trigger] ids[j],
        ) by {
            if j > 0 {
                assert(ids[j] == t[j - 1]);
            }
        }
        if insertion_point(ids, x) < ids.len() {
            assert(ids[insertion_point(ids, x) as int] == t[insertion_point(t, x) as int]);
        }
    }
}

/// Inserting at the insertion point keeps identifiers sorted.
pub proof fn lemma_insertion_keeps_sorted(ids: Seq<Seq<char>>, x: Seq<char>)
    requires
        sorted_ids(ids),
    ensures
        sorted_ids(ids.insert(insertion_point(ids, x) as int, x)),
{
    lemma_insertion_point_bound(ids, x);
    let k = insertion_point(ids, x) as int;
    let r = ids.insert(k, x);
    assert forall|i: int, j: int| 0 <= i < j < r.len() implies !chars_lt(r[j], r[i]) by {
        if j < k {
        } else if j == k {
            assert(r[i] == ids[i]);
        } else if i < k {
            assert(r[i] == ids[i]);
            assert(r[j] == ids[j - 1]);
        } else if i == k {
            assert(r[j] == ids[j - 1]);
            if chars_lt(ids[j - 1], x) {
                lemma_chars_lt_transitive(ids[j - 1], x, ids[k]);
                if j - 1 == k {
                    lemma_chars_lt_irreflexive(ids[k]);
                }
            }
        } else {
            assert(r[i] == ids[i - 1]);
            assert(r[j] == ids[j - 1]);
        }
    }
}

pub open spec fn subscription_ids(v: Seq<StoredSubscription>) -> Seq<Seq<char>> {
    v.map_values(|s: StoredSubscription| s.id@)
}

pub open spec fn holds_source(v: Seq<StoredSubscription>, url: Seq<char>) -> bool {
    exists|k: int| 0 <= k < v.len() && (#[trigger] v[k]).source@ == url
}

/// Adds a subscription read from the store to the list of loaded ones: a source that is
/// already there is skipped; otherwise it goes after every identifier it does not sort before.
pub fn insert_loaded_subscription(
    sources: &mut Vec<StoredSubscription>,
    stored: StoredSubscription,
)
    ensures
        holds_source(old(sources)@, stored.source@) ==> final(sources)@ == old(sources)@,
        !holds_source(old(sources)@, stored.source@) ==> final(sources)@ == old(sources)@.insert(
            insertion_point(subscription_ids(old(sources)@), stored.id@) as int,
            stored,
        ),
        sorted_ids(subscription_ids(old(sources)@)) ==> sorted_ids(
            subscription_ids(final(sources)@),
        ),
        distinct_sources(old(sources)@) ==> distinct_sources(final(sources)@),
        final(sources)@ == loaded_step(old(sources)@, stored),
{
    let mut k: usize = 0;
    while k < sources.len()
        invariant
            k <= sources.len(),
            forall|j: int| 0 <= j < k ==> (#[trigger] sources@[j]).source@ != stored.source@,
        decreases sources.len() - k,
    {
        if str_equal(sources[k].source.expose(), stored.source.expose()) {
            return;
        }
        k = k + 1;
    }
    let ghost ids = subscription_ids(sources@);
    let mut at: usize = 0;
    while at < sources.len() && !chars_less(
        chars_of(stored.id.as_str()).as_slice(),
        chars_of(sources[at].id.as_str()).as_slice(),
    )
        invariant
            at <= sources.len(),
            ids == subscription_ids(sources@),
            forall|j: int| 0 <= j < at ==> !chars_lt(stored.id@, #[trigger] ids[j]),
        decreases sources.len() - at,
    {
        at = at + 1;
    }
    proof {
        lemma_insertion_point(ids, stored.id@, at as int);
        if sorted_ids(ids) {
            lemma_insertion_keeps_sorted(ids, stored.id@);
        }
        if distinct_sources(sources@) {
            lemma_saved_source_is_found(sources@, stored);
        }
    }
    let ghost x = stored;
    sources.insert(at, stored);
    assert(subscription_ids(sources@) =~= ids.insert(at as int, x.id@));
}

/// No two loaded subscriptions hold the same URL.
pub open spec fn distinct_sources(v: Seq<StoredSubscription>) -> bool {
    forall|i: int, j: int| 0 <= i < j < v.len() ==> v[i].source@ != v[j].source@
}

/// A subscription saved as new and then loaded with the others is the one loaded record that
/// holds its URL, so saving the same URL again finds exactly that record.
pub proof fn lemma_saved_source_is_found(sources: Seq<StoredSubscription>, r: StoredSubscription)
    requires
        distinct_sources(sources),
        !holds_source(sources, r.source@),
    ensures
        distinct_sources(
            sources.insert(insertion_point(subscription_ids(sources), r.id@) as int, r),
        ),
        holds_source(
            sources.insert(insertion_point(subscription_ids(sources), r.id@) as int, r),
            r.source@,
        ),
        forall|k: int|
            0 <= k < sources.len() + 1 && (#[trigger] sources.insert(
                insertion_point(subscription_ids(sources), r.id@) as int,
                r,
            )[k]).source@ == r.source@ ==> k == insertion_point(subscription_ids(sources), r.id@),
{
    lemma_insertion_point_bound(subscription_ids(sources), r.id@);
    let p = insertion_point(subscription_ids(sources), r.id@) as int;
    let l2 = sources.insert(p, r);
    assert(l2[p] == r);
    assert forall|k: int| 0 <= k < l2.len() && k != p implies (#[trigger] l2[k]).source@
        != r.source@ by {
        if k < p {
            assert(l2[k] == sources[k]);
        } else {
            assert(l2[k] == sources[k - 1]);
        }
    }
    assert forall|i: int, j: int| 0 <= i < j < l2.len() implies l2[i].source@ != l2[j].source@ by {
        if i != p && j != p {
            let a = if i < p {
                i
            } else {
                i - 1
            };
            let b = if j < p {
                j
            } else {
                j - 1
            };
            assert(l2[i] == sources[a]);
            assert(l2[j] == sources[b]);
        }
    }
}

/// One subscription read from the store, added to those loaded before it: skipped where its
/// URL is already loaded, else placed after every identifier that it does not sort before.
pub open spec fn loaded_step(v: Seq<StoredSubscription>, r: StoredSubscription) -> Seq<
    StoredSubscription,
> {
    if holds_source(v, r.source@) {
        v
    } else {
        v.insert(insertion_point(subscription_ids(v), r.id@) as int, r)
    }
}

/// The subscriptions loaded from the records read from the store in the order `rs`.
pub open spec fn loaded_sources(rs: Seq<StoredSubscription>) -> Seq<StoredSubscription>
    decreases rs.len(),
{
    if rs.len() == 0 {
        Seq::empty()
    } else {
        loaded_step(loaded_sources(rs.drop_last()), rs.last())
    }
}

proof fn lemma_loaded_step(v: Seq<StoredSubscription>, r: StoredSubscription)
    ensures
        forall|x: StoredSubscription| v.contains(x) ==> loaded_step(v, r).contains(x),
        forall|x: StoredSubscription| loaded_step(v, r).contains(x) ==> v.contains(x) || x == r,
        holds_source(loaded_step(v, r), r.source@),
        distinct_sources(v) ==> distinct_sources(loaded_step(v, r)),
{
    if !holds_source(v, r.source@) {
        lemma_insertion_point_bound(subscription_ids(v), r.id@);
        let p = insertion_point(subscription_ids(v), r.id@) as int;
        v.insert_ensures(p, r);
        let l2 = v.insert(p, r);
        assert(l2[p] == r);
        assert forall|x: StoredSubscription| v.contains(x) implies l2.contains(x) by {
            let j = choose|j: int| 0 <= j < v.len() && v[j] == x;
            if j < p {
                assert(l2[j] == x);
            } else {
                assert(l2[j + 1] == x);
            }
        }
        assert forall|x: StoredSubscription| l2.contains(x) implies v.contains(x) || x == r by {
            let k = choose|k: int| 0 <= k < l2.len() && l2[k] == x;
            if k < p {
                assert(v[k] == x);
            } else if k > p {
                assert(l2[(k - 1) + 1] == v[k - 1]);
                assert(v[k - 1] == x);
            }
        }
        if distinct_sources(v) {
            lemma_saved_source_is_found(v, r);
        }
    }
}

/// Loading never holds one URL twice, keeps only records that were read, and holds the URL of
/// every record that was read.
pub proof fn lemma_loaded_sources(rs: Seq<StoredSubscription>)
    ensures
        distinct_sources(loaded_sources(rs)),
        forall|x: StoredSubscription| loaded_sources(rs).contains(x) ==> rs.contains(x),
        forall|i: int|
            0 <= i < rs.len() ==> holds_source(loaded_sources(rs), #[trigger] rs[i].source@),
    decreases rs.len(),
{
    if rs.len() > 0 {
        let front = rs.drop_last();
        let before = loaded_sources(front);
        lemma_loaded_sources(front);
        lemma_loaded_step(before, rs.last());
        let after = loaded_sources(rs);
        assert(after == loaded_step(before, rs.last()));
        assert forall|x: StoredSubscription| after.contains(x) implies rs.contains(x) by {
            assert(before.contains(x) || x == rs.last());
            if before.contains(x) {
                assert(front.contains(x));
                let j = choose|j: int| 0 <= j < front.len() && front[j] == x;
                assert(rs[j] == x);
            } else {
                assert(rs[rs.len() - 1] == x);
            }
        }
        assert forall|i: int| 0 <= i < rs.len() implies holds_source(
            after,
            #[trigger] rs[i].source@,
        ) by {
            if i < rs.len() - 1 {
                assert(front[i] == rs[i]);
                assert(holds_source(before, front[i].source@));
                let k = choose|k: int|
                    0 <= k < before.len() && (#[trigger] before[k]).source@ == front[i].source@;
                assert(before.contains(before[k]));
                assert(after.contains(before[k]));
                let m = choose|m: int| 0 <= m < after.len() && after[m] == before[k];
                assert(after[m].source@ == rs[i].source@);
            }
        }
    }
}

/// Loads the subscriptions read from the store, in the order they were read.
pub fn load_subscriptions(records: Vec<StoredSubscription>) -> (r: Vec<StoredSubscription>)
    ensures
        r@ == loaded_sources(records@),
        distinct_sources(r@),
{
    let ghost all = records@;
    let mut rest = records;
    let mut sources: Vec<StoredSubscription> = Vec::new();
    let total: usize = rest.len();
    let mut i: usize = 0;
    while rest.len() > 0
        invariant
            all.len() == total,
            i + rest@.len() == all.len(),
            rest@ == all.skip(i as int),
            sources@ == loaded_sources(all.take(i as int)),
        decreases rest.len(),
    {
        let next = rest.remove(0);
        proof {
            assert(all.take(i + 1).drop_last() =~= all.take(i as int));
            assert(all.take(i + 1).last() == next);
        }
        insert_loaded_subscription(&mut sources, next);
        i = i + 1;
        assert(rest@ =~= all.skip(i as int));
    }
    assert(all.take(i as int) =~= all);
    proof {
        lemma_loaded_sources(all);
    }
    sources
}

proof fn lemma_inserted_record_stays(
    rs: Seq<StoredSubscription>,
    at: int,
    record: StoredSubscription,
    n: int,
)
    requires
        0 <= at <= rs.len(),
        at < n <= rs.len() + 1,
        forall|i: int| 0 <= i < rs.len() ==> (#[trigger] rs[i]).source@ != record.source@,
    ensures
        loaded_sources(rs.insert(at, record).take(n)).contains(record),
    decreases n,
{
    rs.insert_ensures(at, record);
    let s = rs.insert(at, record);
    let front = s.take(n).drop_last();
    if n == at + 1 {
        assert(front =~= rs.take(at));
        assert(s.take(n).last() == record);
        let before = loaded_sources(front);
        lemma_loaded_sources(front);
        if holds_source(before, record.source@) {
            let k = choose|k: int|
                0 <= k < before.len() && (#[trigger] before[k]).source@ == record.source@;
            assert(before.contains(before[k]));
            assert(front.contains(before[k]));
            let j = choose|j: int| 0 <= j < front.len() && front[j] == before[k];
            assert(rs[j] == front[j]);
        }
        lemma_insertion_point_bound(subscription_ids(before), record.id@);
        let p = insertion_point(subscription_ids(before), record.id@) as int;
        before.insert_ensures(p, record);
        assert(loaded_sources(s.take(n)) == before.insert(p, record));
        assert(loaded_sources(s.take(n))[p] == record);
    } else {
        lemma_inserted_record_stays(rs, at, record, n - 1);
        assert(front =~= s.take(n - 1));
        lemma_loaded_step(loaded_sources(front), s.take(n).last());
    }
}

/// Saving a subscription URL that no record of the store holds writes one file, which reads
/// back as a record under the new identifier with that URL. Loading the store again, with that
/// record read at any place among the others, holds the URL exactly once, in that record: so a
/// second save of the same URL finds the first identifier and writes nothing.
pub proof fn lemma_saved_subscription_reloads(
    rs: Seq<StoredSubscription>,
    at: int,
    id: Seq<char>,
    url: Seq<char>,
    now: u64,
    record: StoredSubscription,
)
    requires
        0 <= at <= rs.len(),
        is_subscription_source_id(id),
        is_subscription_input(url),
        forall|i: int| 0 <= i < rs.len() ==> (#[trigger] rs[i]).source@ != url,
        decoded_source(source_record(id, url, RemoteSourceRefreshInterval::Manual, now), id)
            == Some(
            (
                record.id@,
                record.source@,
                record.refresh_interval,
                record.last_successful_update_unix_secs,
            ),
        ),
    ensures
        record.id@ == id,
        record.source@ == url,
        holds_source(loaded_sources(rs.insert(at, record)), url),
        distinct_sources(loaded_sources(rs.insert(at, record))),
        forall|k: int|
            0 <= k < loaded_sources(rs.insert(at, record)).len() && (#[trigger] loaded_sources(
                rs.insert(at, record),
            )[k]).source@ == url ==> loaded_sources(rs.insert(at, record))[k] == record,
{
    lemma_source_record_round_trip(id, url, RemoteSourceRefreshInterval::Manual, now);
    rs.insert_ensures(at, record);
    let s = rs.insert(at, record);
    lemma_inserted_record_stays(rs, at, record, s.len() as int);
    assert(s.take(s.len() as int) =~= s);
    let l2 = loaded_sources(s);
    lemma_loaded_sources(s);
    assert(l2.contains(record));
    let k0 = choose|k: int| 0 <= k < l2.len() && l2[k] == record;
    assert(l2[k0].source@ == url);
    assert forall|k: int| 0 <= k < l2.len() && (#[trigger] l2[k]).source@ == url implies l2[k]
        == record by {
        assert(l2.contains(l2[k]));
        assert(s.contains(l2[k]));
        let j = choose|j: int| 0 <= j < s.len() && s[j] == l2[k];
        if j < at {
            assert(s[j] == rs[j]);
        } else if j > at {
            assert(s[(j - 1) + 1] == rs[j - 1]);
        }
    }
}

/// What saving a subscription comes to: the record already loaded for the same URL, or a new
/// record under `new_id` with the text of its file.
pub enum SubscriptionSave {
    Existing(usize),
    New { record: StoredSubscription, contents: String },
}

/// Decides a save of `input` against the loaded subscriptions: an invalid URL is refused, a
/// URL that is already saved gives its record, and any other gives a new record dated `now`.
pub fn plan_subscription_save(
    sources: &Vec<StoredSubscription>,
    input: &str,
    new_id: &str,
    now: u64,
) -> (r: Result<SubscriptionSave, SubscriptionStoreError>)
    ensures
        !is_subscription_input(input@) ==> (r matches Err(e) && e
            == SubscriptionStoreError::InvalidSource),
        is_subscription_input(input@) && holds_source(sources@, input@) ==> (r matches Ok(
            SubscriptionSave::Existing(k),
        ) && k < sources@.len() && sources@[k as int].source@ == input@ && forall|j: int|
            0 <= j < k ==> (#[trigger] sources@[j]).source@ != input@),
        is_subscription_input(input@) && !holds_source(sources@, input@) ==> match r {
            Ok(SubscriptionSave::New { record, contents }) => is_subscription_source_id(new_id@)
                && byte_len(input@) <= MAX_SUBSCRIPTION_BYTES && record.id@ == new_id@
                && record.source@ == input@ && record.refresh_interval
                == RemoteSourceRefreshInterval::Manual && record.last_successful_update_unix_secs
                == now && contents@ == source_record(
                new_id@,
                input@,
                RemoteSourceRefreshInterval::Manual,
                now,
            ),
            Ok(SubscriptionSave::Existing(_)) => false,
            Err(e) => e == SubscriptionStoreError::InvalidSource && !(is_subscription_source_id(
                new_id@,
            ) && byte_len(input@) <= MAX_SUBSCRIPTION_BYTES),
        },
{
    let source = match SecretUrl::parse_subscription(input) {
        Ok(source) => source,
        Err(_) => return Err(SubscriptionStoreError::InvalidSource),
    };
    if let Some(k) = saved_subscription_index(sources, &source) {
        return Ok(SubscriptionSave::Existing(k));
    }
    let contents = match encode_subscription_source(
        new_id,
        input,
        RemoteSourceRefreshInterval::Manual,
        now,
    ) {
        Ok(contents) => contents,
        Err(_) => return Err(SubscriptionStoreError::InvalidSource),
    };
    Ok(
        SubscriptionSave::New {
            record: StoredSubscription {
                id: new_id.to_owned(),
                source,
                refresh_interval: RemoteSourceRefreshInterval::Manual,
                last_successful_update_unix_secs: now,
            },
            contents,
        },
    )
}

/// The first loaded subscription that holds `url`, if any.
pub fn saved_subscription_index(sources: &Vec<StoredSubscription>, url: &SecretUrl) -> (r: Option<
    usize,
>)
    ensures
        match r {
            Some(k) => k < sources@.len() && sources@[k as int].source@ == url@ && forall|j: int|
                0 <= j < k ==> (#[trigger] sources@[j]).source@ != url@,
            None => !holds_source(sources@, url@),
        },
{
    let mut k: usize = 0;
    while k < sources.len()
        invariant
            k <= sources.len(),
            forall|j: int| 0 <= j < k ==> (#[trigger] sources@[j]).source@ != url@,
        decreases sources.len() - k,
    {
        if str_equal(sources[k].source.expose(), url.expose()) {
            return Some(k);
        }
        k = k + 1;
    }
    None
}

/// A saved `vless://` node; its share link never appears in debug output.
#[derive(Clone, PartialEq, Eq)]
pub struct StoredVlessNode {
    pub id: String,
    pub source: VlessSource,
}

impl core::fmt::Debug for StoredVlessNode {
    /// Writes the identifier, with a redacted marker for the share link.
    #[verifier::external_body]
    fn fmt(&self, formatter: &mut core::fmt::Formatter<'_>) -> core::fmt::Result {
        formatter.debug_struct("StoredVlessNode").field("id", &self.id).field(
            "source",
            &"<redacted>",
        ).finish()
    }
}

/// The saved node in a store file: a single trimmed line holding a previewable share link.
pub fn vless_node_from_file(id: String, contents: String) -> (r: Result<
    StoredVlessNode,
    SubscriptionStoreError,
>)
    ensures
        match r {
            Ok(node) => node.id@ == id@ && node.source.text() == contents@ && contents@.len() > 0
                && lines(contents@).len() == 1 && trim(contents@) == contents@
                && crate::subscription::vless_node(contents@) == Some(node.source.node()),
            Err(e) => e == SubscriptionStoreError::StoredSourceUnavailable && !(contents@.len() > 0
                && lines(contents@).len() == 1 && trim(contents@) == contents@
                && crate::subscription::vless_node(contents@) is Some),
        },
{
    let contents = single_line_source(contents)?;
    match VlessSource::parse(contents.as_str()) {
        Ok(source) => Ok(StoredVlessNode { id, source }),
        Err(_) => Err(SubscriptionStoreError::StoredSourceUnavailable),
    }
}

pub open spec fn vless_ids(v: Seq<StoredVlessNode>) -> Seq<Seq<char>> {
    v.map_values(|n: StoredVlessNode| n.id@)
}

/// Adds a node read from the store to the loaded ones, after every identifier it does not
/// sort before.
pub fn insert_loaded_vless_node(nodes: &mut Vec<StoredVlessNode>, node: StoredVlessNode)
    ensures
        final(nodes)@ == old(nodes)@.insert(
            insertion_point(vless_ids(old(nodes)@), node.id@) as int,
            node,
        ),
        sorted_ids(vless_ids(old(nodes)@)) ==> sorted_ids(vless_ids(final(nodes)@)),
{
    let ghost ids = vless_ids(nodes@);
    let mut at: usize = 0;
    while at < nodes.len() && !chars_less(
        chars_of(node.id.as_str()).as_slice(),
        chars_of(nodes[at].id.as_str()).as_slice(),
    )
        invariant
            at <= nodes.len(),
            ids == vless_ids(nodes@),
            forall|j: int| 0 <= j < at ==> !chars_lt(node.id@, #[trigger] ids[j]),
        decreases nodes.len() - at,
    {
        at = at + 1;
    }
    proof {
        lemma_insertion_point(ids, node.id@, at as int);
        if sorted_ids(ids) {
            lemma_insertion_keeps_sorted(ids, node.id@);
        }
    }
    let ghost x = node;
    nodes.insert(at, node);
    assert(vless_ids(nodes@) =~= ids.insert(at as int, x.id@));
}

/// The first saved node that holds the same share link as `source`, if any.
pub fn saved_vless_index(nodes: &Vec<StoredVlessNode>, source: &VlessSource) -> (r: Option<usize>)
    ensures
        match r {
            Some(k) => k < nodes@.len() && nodes@[k as int].source.text() == source.text()
                && forall|j: int| 0 <= j < k ==> (#[trigger] nodes@[j]).source.text() != source.text(),
            None => forall|j: int| 0 <= j < nodes@.len() ==> (#[trigger] nodes@[j]).source.text()
                != source.text(),
        },
{
    let mut k: usize = 0;
    while k < nodes.len()
        invariant
            k <= nodes.len(),
            forall|j: int| 0 <= j < k ==> (#[trigger] nodes@[j]).source.text() != source.text(),
        decreases nodes.len() - k,
    {
        if nodes[k].source.same_link(source) {
            return Some(k);
        }
        k = k + 1;
    }
    None
}

/// Where `x` belongs in strictly sorted `ids`: at the first identifier that does not sort
/// before it.
pub open spec fn unique_point(ids: Seq<Seq<char>>, x: Seq<char>) -> nat
    decreases ids.len(),
{
    if ids.len() == 0 {
        0
    } else if !chars_lt(ids[0], x) {
        0
    } else {
        1 + unique_point(ids.drop_first(), x)
    }
}

/// `ids` with `x` added in order, unless it is already there.
pub open spec fn insert_unique(ids: Seq<Seq<char>>, x: Seq<char>) -> Seq<Seq<char>> {
    let k = unique_point(ids, x) as int;
    if k < ids.len() && ids[k] == x {
        ids
    } else {
        ids.insert(k, x)
    }
}

/// The collapsed groups that are kept: the valid identifiers, in order, each once.
pub open spec fn collapsed_ids(xs: Seq<Seq<char>>) -> Seq<Seq<char>>
    decreases xs.len(),
{
    if xs.len() == 0 {
        Seq::empty()
    } else if is_workspace_group_id(xs.last()) {
        insert_unique(collapsed_ids(xs.drop_last()), xs.last())
    } else {
        collapsed_ids(xs.drop_last())
    }
}

pub open spec fn str_views(v: Seq<&str>) -> Seq<Seq<char>> {
    v.map_values(|x: &str| x@)
}

pub open spec fn string_views(v: Seq<String>) -> Seq<Seq<char>> {
    v.map_values(|x: String| x@)
}

proof fn lemma_unique_point(ids: Seq<Seq<char>>, x: Seq<char>, k: int)
    requires
        0 <= k <= ids.len(),
        forall|j: int| 0 <= j < k ==> chars_lt(#[trigger] ids[j], x),
        k == ids.len() || !chars_lt(ids[k], x),
    ensures
        unique_point(ids, x) == k,
    decreases k,
{
    if k > 0 {
        let t = ids.drop_first();
        assert forall|j: int| 0 <= j < k - 1 implies chars_lt(#[trigger] t[j], x) by {
            assert(t[j] == ids[j + 1]);
        }
        if k - 1 < t.len() {
            assert(t[k - 1] == ids[k]);
        }
        lemma_unique_point(t, x, k - 1);
    }
}

/// Adds `x` to strictly sorted `ids` unless it is there already.
fn insert_unique_id(ids: &mut Vec<String>, x: &str)
    ensures
        string_views(final(ids)@) == insert_unique(string_views(old(ids)@), x@),
{
    let ghost v = string_views(ids@);
    let xs = chars_of(x);
    let mut at: usize = 0;
    while at < ids.len() && chars_less(chars_of(ids[at].as_str()).as_slice(), xs.as_slice())
        invariant
            at <= ids.len(),
            xs@ == x@,
            v == string_views(ids@),
            forall|j: int| 0 <= j < at ==> chars_lt(#[trigger] v[j], x@),
        decreases ids.len() - at,
    {
        at = at + 1;
    }
    proof {
        lemma_unique_point(v, x@, at as int);
    }
    if at < ids.len() && str_equal(ids[at].as_str(), x) {
        return;
    }
    ids.insert(at, x.to_owned());
    assert(string_views(ids@) =~= v.insert(at as int, x@));
}

/// The collapsed groups worth keeping from `group_ids`: the valid identifiers, in order, each
/// once.
pub fn collapsed_group_ids(group_ids: &[&str]) -> (r: Vec<String>)
    ensures
        string_views(r@) == collapsed_ids(str_views(group_ids@)),
{
    let mut out: Vec<String> = Vec::new();
    let mut i: usize = 0;
    while i < group_ids.len()
        invariant
            i <= group_ids.len(),
            string_views(out@) == collapsed_ids(str_views(group_ids@).take(i as int)),
        decreases group_ids.len() - i,
    {
        let ghost xs = str_views(group_ids@).take(i + 1);
        assert(xs.drop_last() =~= str_views(group_ids@).take(i as int));
        assert(xs.last() == group_ids@[i as int]@);
        if valid_workspace_group_id(group_ids[i]) {
            insert_unique_id(&mut out, group_ids[i]);
        }
        i = i + 1;
    }
    assert(str_views(group_ids@).take(group_ids.len() as int) =~= str_views(group_ids@));
    out
}

/// The collapsed-groups state as it is stored: the kept identifiers, one per line.
pub fn encode_collapsed_groups(group_ids: &[&str]) -> (r: String)
    ensures
        r@ == join(collapsed_ids(str_views(group_ids@)), seq!['\n']),
{
    let ids = collapsed_group_ids(group_ids);
    let mut ws: Vec<Vec<char>> = Vec::new();
    let mut i: usize = 0;
    while i < ids.len()
        invariant
            i <= ids.len(),
            views(ws@) == string_views(ids@).take(i as int),
            ws@.len() == i,
        decreases ids.len() - i,
    {
        let ghost before = ws@;
        let w = chars_of(ids[i].as_str());
        ws.push(w);
        assert(ws@ == before.push(w));
        assert forall|k: int| 0 <= k <= i implies #[trigger] views(ws@)[k] == string_views(
            ids@,
        )[k] by {
            if k < i {
                assert(views(before)[k] == string_views(ids@).take(i as int)[k]);
            }
        }
        i = i + 1;
        assert(views(ws@) =~= string_views(ids@).take(i as int));
    }
    assert(string_views(ids@).take(ids.len() as int) =~= string_views(ids@));
    let sep: Vec<char> = vec!['\n'];
    assert(sep@ =~= seq!['\n']);
    assert(views(ws@) == collapsed_ids(str_views(group_ids@)));
    let out = join_chars(&ws, sep.as_slice());
    string_of(out.as_slice())
}

/// What the stored collapsed-groups state reads as: its lines, when each is a valid
/// identifier.
pub open spec fn decoded_collapsed_groups(contents: Seq<char>) -> Option<Seq<Seq<char>>> {
    if forall|i: int| 0 <= i < lines(contents).len() ==> is_workspace_group_id(
        #[trigger] lines(contents)[i],
    ) {
        Some(lines(contents))
    } else {
        None
    }
}

/// Reads the stored collapsed-groups state; an invalid line makes it unreadable.
pub fn decode_collapsed_groups(contents: &str) -> (r: Result<Vec<String>, SubscriptionStoreError>)
    ensures
        match decoded_collapsed_groups(contents@) {
            Some(ids) => r matches Ok(v) && string_views(v@) == ids,
            None => r matches Err(e) && e == SubscriptionStoreError::StoredSourceUnavailable,
        },
{
    let v = chars_of(contents);
    let ls = lines_of(v.as_slice());
    let ghost gl = lines(contents@);
    let mut out: Vec<String> = Vec::new();
    let mut i: usize = 0;
    while i < ls.len()
        invariant
            i <= ls.len(),
            views(ls@) == gl,
            gl == lines(contents@),
            string_views(out@) == gl.take(i as int),
            out@.len() == i,
            forall|j: int| 0 <= j < i ==> is_workspace_group_id(#[trigger] gl[j]),
        decreases ls.len() - i,
    {
        let id = string_of(ls[i].as_slice());
        assert(id@ == gl[i as int]);
        if !valid_workspace_group_id(id.as_str()) {
            return Err(SubscriptionStoreError::StoredSourceUnavailable);
        }
        let ghost before = out@;
        out.push(id);
        assert forall|k: int| 0 <= k <= i implies #[trigger] string_views(out@)[k] == gl[k] by {
            if k < i {
                assert(out@[k] == before[k]);
                assert(string_views(before)[k] == gl.take(i as int)[k]);
            }
        }
        i = i + 1;
        assert(string_views(out@) =~= gl.take(i as int));
    }
    assert(gl.take(ls.len() as int) =~= gl);
    Ok(out)
}

proof fn lemma_unique_point_bound(ids: Seq<Seq<char>>, x: Seq<char>)
    ensures
        unique_point(ids, x) <= ids.len(),
        forall|j: int| 0 <= j < unique_point(ids, x) ==> chars_lt(#[trigger] ids[j], x),
        unique_point(ids, x) == ids.len() || !chars_lt(ids[unique_point(ids, x) as int], x),
    decreases ids.len(),
{
    if ids.len() > 0 && chars_lt(ids[0], x) {
        let t = ids.drop_first();
        lemma_unique_point_bound(t, x);
        assert forall|j: int| 0 <= j < unique_point(ids, x) implies chars_lt(#[trigger] ids[j], x) by {
            if j > 0 {
                assert(ids[j] == t[j - 1]);
            }
        }
        if unique_point(ids, x) < ids.len() {
            assert(ids[unique_point(ids, x) as int] == t[unique_point(t, x) as int]);
        }
    }
}

proof fn lemma_insert_unique(ids: Seq<Seq<char>>, x: Seq<char>)
    requires
        strictly_sorted_ids(ids),
    ensures
        strictly_sorted_ids(insert_unique(ids, x)),
        forall|s: Seq<char>| #[trigger]
            insert_unique(ids, x).contains(s) <==> ids.contains(s) || s == x,
{
    lemma_unique_point_bound(ids, x);
    let k = unique_point(ids, x) as int;
    if k < ids.len() && ids[k] == x {
        assert(ids.contains(x));
    } else {
        let r = ids.insert(k, x);
        if k < ids.len() {
            lemma_chars_lt_total(ids[k], x);
        }
        assert forall|i: int, j: int| 0 <= i < j < r.len() implies chars_lt(r[i], r[j]) by {
            if j < k {
            } else if j == k {
                assert(r[i] == ids[i]);
            } else if i < k {
                assert(r[i] == ids[i]);
                assert(r[j] == ids[j - 1]);
            } else if i == k {
                assert(r[j] == ids[j - 1]);
                if j - 1 > k {
                    lemma_chars_lt_transitive(x, ids[k], ids[j - 1]);
                }
            } else {
                assert(r[i] == ids[i - 1]);
                assert(r[j] == ids[j - 1]);
            }
        }
        assert forall|s: Seq<char>| #[trigger] r.contains(s) <==> ids.contains(s) || s == x by {
            if r.contains(s) {
                let m = choose|m: int| 0 <= m < r.len() && r[m] == s;
                if m < k {
                    assert(ids[m] == s);
                } else if m > k {
                    assert(ids[m - 1] == s);
                }
            }
            if ids.contains(s) {
                let m = choose|m: int| 0 <= m < ids.len() && ids[m] == s;
                if m < k {
                    assert(r[m] == s);
                } else {
                    assert(r[m + 1] == s);
                }
            }
            if s == x {
                assert(r[k] == x);
            }
        }
    }
}

/// The kept collapsed groups are in strict order, each once, and are exactly the valid
/// identifiers among those given.
pub proof fn lemma_collapsed_ids(xs: Seq<Seq<char>>)
    ensures
        strictly_sorted_ids(collapsed_ids(xs)),
        forall|s: Seq<char>| #[trigger]
            collapsed_ids(xs).contains(s) <==> xs.contains(s) && is_workspace_group_id(s),
    decreases xs.len(),
{
    if xs.len() > 0 {
        let p = xs.drop_last();
        lemma_collapsed_ids(p);
        if is_workspace_group_id(xs.last()) {
            lemma_insert_unique(collapsed_ids(p), xs.last());
        }
        assert forall|s: Seq<char>| #[trigger]
            collapsed_ids(xs).contains(s) <==> xs.contains(s) && is_workspace_group_id(s) by {
            if xs.contains(s) && s != xs.last() {
                let m = choose|m: int| 0 <= m < xs.len() && xs[m] == s;
                assert(p[m] == s);
                assert(p.contains(s));
            }
            if p.contains(s) {
                let m = choose|m: int| 0 <= m < p.len() && p[m] == s;
                assert(xs[m] == s);
            }
            if s == xs.last() {
                assert(xs[xs.len() - 1] == s);
            }
        }
    }
}

proof fn lemma_group_id_plain(id: Seq<char>)
    requires
        is_workspace_group_id(id),
    ensures
        is_plain_field_line(id),
        id.len() > 0,
{
    assert forall|i: int| 0 <= i < id.len() implies #[trigger] id[i] != '\n' && id[i] != '\r' by {
        assert(is_workspace_group_char(id[i]));
    }
}

proof fn lemma_lines_append(x: Seq<char>, w: Seq<char>)
    requires
        x.len() > 0,
        x.last() != '\n',
        x.last() != '\r',
        is_plain_field_line(w),
        w.len() > 0,
    ensures
        lines(x + seq!['\n'] + w) == lines(x) + seq![w],
    decreases x.len(),
{
    let s = x + seq!['\n'] + w;
    let k = find_char(x, '\n');
    crate::text::lemma_find_char_bound(x, '\n');
    if k == x.len() {
        assert forall|j: int| 0 <= j < x.len() implies #[trigger] s[j] != '\n' by {
            assert(s[j] == x[j]);
            if x[j] == '\n' {
                lemma_first_char_before(x, '\n', j);
            }
        }
        lemma_find_char(s, '\n', x.len() as int);
        assert(s.take(x.len() as int) =~= x);
        assert(s.skip(x.len() + 1 as int) =~= w);
        lemma_line_one(w);
        assert(strip_cr(x) == x);
    } else {
        let head = x.take(k as int);
        let tail = x.skip(k + 1 as int);
        assert(tail.len() > 0) by {
            if tail.len() == 0 {
                lemma_found_char(x, '\n');
            }
        }
        assert(tail.last() == x.last());
        lemma_lines_append(tail, w);
        lemma_found_char(x, '\n');
        assert forall|j: int| 0 <= j < k implies #[trigger] s[j] != '\n' by {
            assert(s[j] == x[j]);
        }
        lemma_find_char(s, '\n', k as int);
        assert(s.take(k as int) =~= head);
        assert(s.skip(k + 1 as int) =~= tail + seq!['\n'] + w);
    }
}

proof fn lemma_first_char_before(s: Seq<char>, c: char, j: int)
    requires
        0 <= j < s.len(),
        s[j] == c,
    ensures
        find_char(s, c) <= j,
    decreases s.len(),
{
    if j > 0 && s[0] != c {
        lemma_first_char_before(s.drop_first(), c, j - 1);
    }
}

proof fn lemma_found_char(s: Seq<char>, c: char)
    requires
        find_char(s, c) < s.len(),
    ensures
        s[find_char(s, c) as int] == c,
        forall|j: int| 0 <= j < find_char(s, c) ==> #[trigger] s[j] != c,
    decreases s.len(),
{
    if s.len() > 0 && s[0] != c {
        lemma_found_char(s.drop_first(), c);
        assert forall|j: int| 0 <= j < find_char(s, c) implies #[trigger] s[j] != c by {
            if j > 0 {
                assert(s[j] == s.drop_first()[j - 1]);
            }
        }
    }
}

proof fn lemma_join_last(ws: Seq<Seq<char>>)
    requires
        ws.len() > 0,
        forall|i: int| 0 <= i < ws.len() ==> (#[trigger] ws[i]).len() > 0,
    ensures
        join(ws, seq!['\n']).len() > 0,
        join(ws, seq!['\n']).last() == ws.last().last(),
    decreases ws.len(),
{
    if ws.len() > 1 {
        lemma_join_last(ws.drop_last());
    }
}

proof fn lemma_lines_join(ws: Seq<Seq<char>>)
    requires
        forall|i: int| 0 <= i < ws.len() ==> is_workspace_group_id(#[trigger] ws[i]),
    ensures
        lines(join(ws, seq!['\n'])) == ws,
    decreases ws.len(),
{
    if ws.len() == 1 {
        lemma_group_id_plain(ws[0]);
        lemma_line_one(ws[0]);
        assert(seq![ws[0]] =~= ws);
    } else if ws.len() > 1 {
        let p = ws.drop_last();
        lemma_lines_join(p);
        assert forall|i: int| 0 <= i < p.len() implies (#[trigger] p[i]).len() > 0 by {
            lemma_group_id_plain(p[i]);
        }
        lemma_join_last(p);
        let w = ws.last();
        lemma_group_id_plain(w);
        let l = p.last();
        lemma_group_id_plain(l);
        assert(l.last() == l[l.len() - 1]);
        lemma_lines_append(join(p, seq!['\n']), w);
        assert(p.push(w) =~= ws);
    } else {
        assert(ws =~= Seq::<Seq<char>>::empty());
    }
}

/// The stored collapsed-groups state reads back as the identifiers that were kept.
pub proof fn lemma_collapsed_groups_round_trip(xs: Seq<Seq<char>>)
    ensures
        decoded_collapsed_groups(join(collapsed_ids(xs), seq!['\n'])) == Some(collapsed_ids(xs)),
{
    let ids = collapsed_ids(xs);
    lemma_collapsed_ids(xs);
    assert forall|i: int| 0 <= i < ids.len() implies is_workspace_group_id(#[trigger] ids[i]) by {
        assert(ids.contains(ids[i]));
    }
    lemma_lines_join(ids);
}

} // verus!
