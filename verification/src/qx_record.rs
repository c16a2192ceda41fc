//! The versioned text format of a saved QX rule source: its identifier, HTTPS URL, target
//! policy, rule-list text and refresh metadata.
use vstd::prelude::*;

use crate::diagnostics::lemma_decimal_parses;
use crate::profile::{byte_len, is_https_url, is_valid_name, Name, SecretUrl, MAX_SECRET_URL_BYTES};
use crate::sources::{
    interval_for_key, interval_key, lemma_interval_key_round_trip, RemoteSourceRefreshInterval,
    SubscriptionStoreError,
};
use crate::store::{
    decode_hex, decoded_hex, encode_hex, encoded_hex, field_line, is_key, is_plain_field,
    is_plain_field_line, is_stored_id, lemma_decimal_plain, lemma_hex_plain, lemma_hex_round_trip,
    lemma_interval_key_plain, lemma_line_cons, lemma_line_one, lemma_split_field, opt_view,
    valid_stored_id, QX_RULE_SOURCE_PREFIX,
};
use crate::text::{
    chars_of, decimal, lines, lines_of, parse_unsigned, parse_unsigned_exec, push_chars,
    push_decimal, split_all, split_chars, str_equal, string_of, views,
};

verus! {

/// The first line of a saved QX rule source.
pub const QX_RULE_SOURCE_VERSION: &'static str = "relay-qx-rule-source-v1";

/// The largest rule-list text of a QX rule source, in bytes.
pub const MAX_QX_RULE_SOURCE_CONTENT_BYTES: usize = 1048576;

/// A rule-list text of acceptable size.
pub open spec fn is_qx_content(content: Seq<char>) -> bool {
    content.len() > 0 && byte_len(content) <= MAX_QX_RULE_SOURCE_CONTENT_BYTES
}

pub open spec fn is_https_input(url: Seq<char>) -> bool {
    is_https_url(url) && byte_len(url) <= MAX_SECRET_URL_BYTES
}

/// The versioned text of a saved QX rule source.
pub open spec fn qx_record(
    id: Seq<char>,
    url: Seq<char>,
    target: Seq<char>,
    content: Seq<char>,
    refresh: RemoteSourceRefreshInterval,
    last_success: u64,
) -> Seq<char> {
    QX_RULE_SOURCE_VERSION@ + seq!['\n'] + field_line("id"@, id) + seq!['\n'] + field_line(
        "url"@,
        encoded_hex(url),
    ) + seq!['\n'] + field_line("target"@, encoded_hex(target)) + seq!['\n'] + field_line(
        "content"@,
        encoded_hex(content),
    ) + seq!['\n'] + field_line("refresh"@, interval_key(refresh)) + seq!['\n'] + field_line(
        "last-success"@,
        decimal(last_success as nat),
    )
}

/// The fields read so far from the lines of a QX record.
pub struct QxFields {
    pub id: Option<Seq<char>>,
    pub url: Option<Seq<char>>,
    pub target: Option<Seq<char>>,
    pub content: Option<Seq<char>>,
    pub refresh: Option<RemoteSourceRefreshInterval>,
    pub last_success: Option<u64>,
}

pub open spec fn no_qx_fields() -> QxFields {
    QxFields {
        id: None,
        url: None,
        target: None,
        content: None,
        refresh: None,
        last_success: None,
    }
}

/// Reads one line into `acc`: each key may appear once, and every line must be a known
/// `key<TAB>value` pair whose value parses.
pub open spec fn read_qx_field(acc: QxFields, line: Seq<char>) -> Option<QxFields> {
    let f = split_all(line, '\t');
    if f.len() == 2 && f[0] == "id"@ && acc.id is None {
        Some(QxFields { id: Some(f[1]), ..acc })
    } else if f.len() == 2 && f[0] == "url"@ && acc.url is None {
        match decoded_hex(f[1]) {
            Some(u) => Some(QxFields { url: Some(u), ..acc }),
            None => None,
        }
    } else if f.len() == 2 && f[0] == "target"@ && acc.target is None {
        match decoded_hex(f[1]) {
            Some(t) => Some(QxFields { target: Some(t), ..acc }),
            None => None,
        }
    } else if f.len() == 2 && f[0] == "content"@ && acc.content is None {
        match decoded_hex(f[1]) {
            Some(c) => Some(QxFields { content: Some(c), ..acc }),
            None => None,
        }
    } else if f.len() == 2 && f[0] == "refresh"@ && acc.refresh is None {
        match interval_for_key(f[1]) {
            Some(i) => Some(QxFields { refresh: Some(i), ..acc }),
            None => None,
        }
    } else if f.len() == 2 && f[0] == "last-success"@ && acc.last_success is None {
        match parse_unsigned(f[1], u64::MAX as nat) {
            Some(n) => Some(QxFields { last_success: Some(n as u64), ..acc }),
            None => None,
        }
    } else {
        None
    }
}

pub open spec fn read_qx_fields(ls: Seq<Seq<char>>) -> Option<QxFields>
    decreases ls.len(),
{
    if ls.len() == 0 {
        Some(no_qx_fields())
    } else {
        match read_qx_fields(ls.drop_last()) {
            Some(acc) => read_qx_field(acc, ls.last()),
            None => None,
        }
    }
}

/// What a saved QX rule source file reads as, for the source `expected`: identifier, URL,
/// target policy, rule-list text, refresh interval and last successful update.
pub open spec fn decoded_qx_record(contents: Seq<char>, expected: Seq<char>) -> Option<
    (Seq<char>, Seq<char>, Seq<char>, Seq<char>, RemoteSourceRefreshInterval, u64),
> {
    let ls = lines(contents);
    if ls.len() == 0 || ls[0] != QX_RULE_SOURCE_VERSION@ {
        None
    } else {
        match read_qx_fields(ls.skip(1)) {
            Some(f) => if f.id == Some(expected) && is_stored_id(expected, QX_RULE_SOURCE_PREFIX@)
                && f.url is Some && is_https_input(f.url.unwrap()) && f.target is Some
                && is_valid_name(f.target.unwrap()) && f.content is Some && is_qx_content(
                f.content.unwrap(),
            ) {
                Some(
                    (
                        expected,
                        f.url.unwrap(),
                        f.target.unwrap(),
                        f.content.unwrap(),
                        match f.refresh {
                            Some(i) => i,
                            None => RemoteSourceRefreshInterval::Manual,
                        },
                        match f.last_success {
                            Some(n) => n,
                            None => 0u64,
                        },
                    ),
                )
            } else {
                None
            },
            None => None,
        }
    }
}

/// A saved QX rule source read back, with the URL text it was saved from.
pub struct DecodedQxRuleRecord {
    pub id: String,
    pub source: SecretUrl,
    pub target_policy: Name,
    pub content: String,
    pub refresh_interval: RemoteSourceRefreshInterval,
    pub last_successful_update_unix_secs: u64,
    pub url_input: String,
}

/// The versioned text of a saved QX rule source. The rule-list text is checked for size only;
/// what its rules are is not examined here.
pub fn encode_qx_rule_record(
    id: &str,
    url_input: &str,
    target_policy: &Name,
    content: &str,
    refresh_interval: RemoteSourceRefreshInterval,
    last_successful_update_unix_secs: u64,
) -> (r: Result<String, SubscriptionStoreError>)
    ensures
        r is Ok <==> is_stored_id(id@, QX_RULE_SOURCE_PREFIX@) && is_https_input(url_input@)
            && is_qx_content(content@),
        r matches Ok(text) ==> text@ == qx_record(
            id@,
            url_input@,
            target_policy@,
            content@,
            refresh_interval,
            last_successful_update_unix_secs,
        ),
        r matches Err(e) ==> e == SubscriptionStoreError::InvalidSource,
{
    if !valid_stored_id(id, QX_RULE_SOURCE_PREFIX) {
        return Err(SubscriptionStoreError::InvalidSource);
    }
    if SecretUrl::parse_https(url_input).is_err() {
        return Err(SubscriptionStoreError::InvalidSource);
    }
    if content.is_empty() || content.len() > MAX_QX_RULE_SOURCE_CONTENT_BYTES {
        return Err(SubscriptionStoreError::InvalidSource);
    }
    let mut out = String::new();
    let v = chars_of(QX_RULE_SOURCE_VERSION);
    push_chars(&mut out, v.as_slice());
    push_field(&mut out, "id", id);
    let hex = encode_hex(url_input);
    push_field(&mut out, "url", hex.as_str());
    let hex = encode_hex(target_policy.as_str());
    push_field(&mut out, "target", hex.as_str());
    let hex = encode_hex(content);
    push_field(&mut out, "content", hex.as_str());
    push_field(&mut out, "refresh", refresh_interval.key());
    out.push('\n');
    let key = chars_of("last-success");
    push_chars(&mut out, key.as_slice());
    out.push('\t');
    push_decimal(&mut out, last_successful_update_unix_secs as u128);
    assert(out@ =~= qx_record(
        id@,
        url_input@,
        target_policy@,
        content@,
        refresh_interval,
        last_successful_update_unix_secs,
    ));
    Ok(out)
}

fn push_field(out: &mut String, key: &str, value: &str)
    ensures
        final(out)@ == old(out)@ + seq!['\n'] + field_line(key@, value@),
{
    out.push('\n');
    let k = chars_of(key);
    push_chars(out, k.as_slice());
    out.push('\t');
    let v = chars_of(value);
    push_chars(out, v.as_slice());
    assert(out@ =~= old(out)@ + seq!['\n'] + field_line(key@, value@));
}

proof fn lemma_read_qx_rejected(ls: Seq<Seq<char>>, k: int)
    requires
        0 <= k <= ls.len(),
        read_qx_fields(ls.take(k)) is None,
    ensures
        read_qx_fields(ls) is None,
    decreases ls.len(),
{
    if k < ls.len() {
        assert(ls.drop_last().take(k) =~= ls.take(k));
        lemma_read_qx_rejected(ls.drop_last(), k);
    } else {
        assert(ls.take(k) =~= ls);
    }
}

fn decode_hex_field(value: &Vec<char>) -> (r: Result<String, SubscriptionStoreError>)
    ensures
        match decoded_hex(value@) {
            Some(s) => r matches Ok(t) && t@ == s,
            None => r matches Err(e) && e == SubscriptionStoreError::StoredSourceUnavailable,
        },
{
    let text = string_of(value.as_slice());
    decode_hex(text.as_str())
}

/// Reads a saved QX rule source file for the source `expected_id`; any deviation from the
/// format makes the stored source unreadable. The rule-list text is checked for size only.
pub fn decode_qx_rule_record(contents: &str, expected_id: &str) -> (r: Result<
    DecodedQxRuleRecord,
    SubscriptionStoreError,
>)
    ensures
        match decoded_qx_record(contents@, expected_id@) {
            Some((id, url, target, content, refresh, last)) => r matches Ok(d) && d.id@ == id
                && d.url_input@ == url && d.source@ == url && d.target_policy@ == target
                && d.content@ == content && d.refresh_interval == refresh
                && d.last_successful_update_unix_secs == last,
            None => r matches Err(e) && e == SubscriptionStoreError::StoredSourceUnavailable,
        },
{
    let v = chars_of(contents);
    let ls = lines_of(v.as_slice());
    let ghost gl = lines(contents@);
    if ls.len() == 0 || !is_key(&ls[0], QX_RULE_SOURCE_VERSION) {
        proof {
            if ls.len() > 0 {
                assert(views(ls@)[0] == ls@[0]@);
            }
        }
        return Err(SubscriptionStoreError::StoredSourceUnavailable);
    }
    assert(views(ls@)[0] == ls@[0]@);
    let mut id: Option<String> = None;
    let mut url: Option<String> = None;
    let mut target: Option<String> = None;
    let mut content: Option<String> = None;
    let mut refresh_interval: Option<RemoteSourceRefreshInterval> = None;
    let mut last_success: Option<u64> = None;
    let mut i: usize = 1;
    assert(gl.subrange(1, 1) =~= Seq::<Seq<char>>::empty());
    while i < ls.len()
        invariant
            1 <= i <= ls.len(),
            views(ls@) == gl,
            gl == lines(contents@),
            gl[0] == QX_RULE_SOURCE_VERSION@,
            read_qx_fields(gl.subrange(1, i as int)) == Some(
                QxFields {
                    id: opt_view(id),
                    url: opt_view(url),
                    target: opt_view(target),
                    content: opt_view(content),
                    refresh: refresh_interval,
                    last_success,
                },
            ),
        decreases ls.len() - i,
    {
        let ghost line = gl[i as int];
        assert(gl.subrange(1, i + 1).drop_last() =~= gl.subrange(1, i as int));
        assert(gl.subrange(1, i + 1).last() == line);
        assert(ls@[i as int]@ == line);
        proof {
            if read_qx_fields(gl.subrange(1, i + 1)) is None {
                assert(gl.skip(1).take(i as int) =~= gl.subrange(1, i + 1));
                lemma_read_qx_rejected(gl.skip(1), i as int);
            }
        }
        let fields = split_chars(ls[i].as_slice(), '\t', None);
        let ghost f = split_all(line, '\t');
        assert(views(fields@) == f);
        if fields.len() != 2 {
            return Err(SubscriptionStoreError::StoredSourceUnavailable);
        }
        assert(f[0] == fields@[0]@);
        assert(f[1] == fields@[1]@);
        if is_key(&fields[0], "id") && id.is_none() {
            id = Some(string_of(fields[1].as_slice()));
        } else if is_key(&fields[0], "url") && url.is_none() {
            match decode_hex_field(&fields[1]) {
                Ok(t) => {
                    url = Some(t);
                },
                Err(_) => return Err(SubscriptionStoreError::StoredSourceUnavailable),
            }
        } else if is_key(&fields[0], "target") && target.is_none() {
            match decode_hex_field(&fields[1]) {
                Ok(t) => {
                    target = Some(t);
                },
                Err(_) => return Err(SubscriptionStoreError::StoredSourceUnavailable),
            }
        } else if is_key(&fields[0], "content") && content.is_none() {
            match decode_hex_field(&fields[1]) {
                Ok(t) => {
                    content = Some(t);
                },
                Err(_) => return Err(SubscriptionStoreError::StoredSourceUnavailable),
            }
        } else if is_key(&fields[0], "refresh") && refresh_interval.is_none() {
            let text = string_of(fields[1].as_slice());
            match RemoteSourceRefreshInterval::parse_key(text.as_str()) {
                Some(interval) => {
                    refresh_interval = Some(interval);
                },
                None => return Err(SubscriptionStoreError::StoredSourceUnavailable),
            }
        } else if is_key(&fields[0], "last-success") && last_success.is_none() {
            match parse_unsigned_exec(fields[1].as_slice(), u64::MAX as u128) {
                Some(n) => {
                    last_success = Some(n as u64);
                },
                None => return Err(SubscriptionStoreError::StoredSourceUnavailable),
            }
        } else {
            return Err(SubscriptionStoreError::StoredSourceUnavailable);
        }
        i = i + 1;
    }
    assert(gl.subrange(1, ls.len() as int) =~= gl.skip(1));
    let id = match id {
        Some(id) => id,
        None => return Err(SubscriptionStoreError::StoredSourceUnavailable),
    };
    if !str_equal(id.as_str(), expected_id) || !valid_stored_id(id.as_str(), QX_RULE_SOURCE_PREFIX) {
        return Err(SubscriptionStoreError::StoredSourceUnavailable);
    }
    let url_input = match url {
        Some(url) => url,
        None => return Err(SubscriptionStoreError::StoredSourceUnavailable),
    };
    let source = match SecretUrl::parse_https(url_input.as_str()) {
        Ok(source) => source,
        Err(_) => return Err(SubscriptionStoreError::StoredSourceUnavailable),
    };
    let target = match target {
        Some(target) => target,
        None => return Err(SubscriptionStoreError::StoredSourceUnavailable),
    };
    let target_policy = match Name::parse(target.as_str()) {
        Ok(name) => name,
        Err(_) => return Err(SubscriptionStoreError::StoredSourceUnavailable),
    };
    let content = match content {
        Some(content) => content,
        None => return Err(SubscriptionStoreError::StoredSourceUnavailable),
    };
    if content.as_str().is_empty() || content.as_str().len() > MAX_QX_RULE_SOURCE_CONTENT_BYTES {
        return Err(SubscriptionStoreError::StoredSourceUnavailable);
    }
    let refresh_interval = match refresh_interval {
        Some(interval) => interval,
        None => RemoteSourceRefreshInterval::Manual,
    };
    let last_successful_update_unix_secs = match last_success {
        Some(n) => n,
        None => 0,
    };
    Ok(
        DecodedQxRuleRecord {
            id,
            source,
            target_policy,
            content,
            refresh_interval,
            last_successful_update_unix_secs,
            url_input,
        },
    )
}

proof fn lemma_qx_id_plain(id: Seq<char>)
    requires
        is_stored_id(id, QX_RULE_SOURCE_PREFIX@),
    ensures
        is_plain_field(id),
{
    reveal_strlit("qx-rule-");
    assert forall|i: int| 0 <= i < id.len() implies #[trigger] id[i] != '\n' && id[i] != '\r'
        && id[i] != '\t' by {
        if i < 8 {
            assert(id[i] == id.take(8)[i]);
        }
    }
}

proof fn lemma_keys_distinct()
    ensures
        "id"@ != "url"@,
        "id"@ != "target"@,
        "id"@ != "content"@,
        "id"@ != "refresh"@,
        "id"@ != "last-success"@,
        "url"@ != "target"@,
        "url"@ != "content"@,
        "url"@ != "refresh"@,
        "url"@ != "last-success"@,
        "target"@ != "content"@,
        "target"@ != "refresh"@,
        "target"@ != "last-success"@,
        "content"@ != "refresh"@,
        "content"@ != "last-success"@,
        "refresh"@ != "last-success"@,
        is_plain_field("id"@),
        is_plain_field("url"@),
        is_plain_field("target"@),
        is_plain_field("content"@),
        is_plain_field("refresh"@),
        is_plain_field("last-success"@),
{
    reveal_strlit("id");
    reveal_strlit("url");
    reveal_strlit("target");
    reveal_strlit("content");
    reveal_strlit("refresh");
    reveal_strlit("last-success");
    assert("content"@[0] != "refresh"@[0]);
    assert("id"@.len() == 2 && "url"@.len() == 3 && "target"@.len() == 6);
    assert("content"@.len() == 7 && "refresh"@.len() == 7 && "last-success"@.len() == 12);
}

proof fn lemma_read_qx_hex(acc: QxFields, key: Seq<char>, value: Seq<char>)
    requires
        key == "url"@ || key == "target"@ || key == "content"@,
        key == "url"@ ==> acc.url is None,
        key == "target"@ ==> acc.target is None,
        key == "content"@ ==> acc.content is None,
    ensures
        read_qx_field(acc, field_line(key, encoded_hex(value))) == if key == "url"@ {
            Some(QxFields { url: Some(value), ..acc })
        } else if key == "target"@ {
            Some(QxFields { target: Some(value), ..acc })
        } else {
            Some(QxFields { content: Some(value), ..acc })
        },
{
    lemma_keys_distinct();
    lemma_hex_plain(value);
    lemma_split_field(key, encoded_hex(value));
    lemma_hex_round_trip(value);
}

proof fn lemma_read_qx_tail(
    acc: QxFields,
    refresh: RemoteSourceRefreshInterval,
    last_success: u64,
)
    requires
        acc.refresh is None,
        acc.last_success is None,
    ensures
        read_qx_field(acc, field_line("refresh"@, interval_key(refresh))) == Some(
            QxFields { refresh: Some(refresh), ..acc },
        ),
        read_qx_field(
            QxFields { refresh: Some(refresh), ..acc },
            field_line("last-success"@, decimal(last_success as nat)),
        ) == Some(QxFields { refresh: Some(refresh), last_success: Some(last_success), ..acc }),
{
    lemma_keys_distinct();
    lemma_interval_key_plain(refresh);
    lemma_split_field("refresh"@, interval_key(refresh));
    lemma_interval_key_round_trip(refresh);
    lemma_decimal_plain(last_success as nat);
    lemma_split_field("last-success"@, decimal(last_success as nat));
    lemma_decimal_parses(last_success as nat, u64::MAX as nat);
}

proof fn lemma_field_line_plain(key: Seq<char>, value: Seq<char>)
    requires
        is_plain_field(key),
        is_plain_field(value),
    ensures
        is_plain_field_line(field_line(key, value)),
        field_line(key, value).len() > 0,
{
    let s = field_line(key, value);
    assert forall|j: int| 0 <= j < s.len() implies #[trigger] s[j] != '\n' && s[j] != '\r' by {
        if j < key.len() {
            assert(s[j] == key[j]);
        } else if j > key.len() {
            assert(s[j] == value[j - key.len() - 1]);
        }
    }
}

#[verifier::rlimit(30)]
proof fn lemma_qx_lines(
    id: Seq<char>,
    url: Seq<char>,
    target: Seq<char>,
    content: Seq<char>,
    refresh: RemoteSourceRefreshInterval,
    last_success: u64,
)
    requires
        is_stored_id(id, QX_RULE_SOURCE_PREFIX@),
    ensures
        lines(qx_record(id, url, target, content, refresh, last_success)) == seq![
            QX_RULE_SOURCE_VERSION@,
            field_line("id"@, id),
            field_line("url"@, encoded_hex(url)),
            field_line("target"@, encoded_hex(target)),
            field_line("content"@, encoded_hex(content)),
            field_line("refresh"@, interval_key(refresh)),
            field_line("last-success"@, decimal(last_success as nat)),
        ],
{
    reveal_strlit("relay-qx-rule-source-v1");
    lemma_keys_distinct();
    lemma_qx_id_plain(id);
    lemma_hex_plain(url);
    lemma_hex_plain(target);
    lemma_hex_plain(content);
    lemma_interval_key_plain(refresh);
    lemma_decimal_plain(last_success as nat);
    let l1 = field_line("id"@, id);
    let l2 = field_line("url"@, encoded_hex(url));
    let l3 = field_line("target"@, encoded_hex(target));
    let l4 = field_line("content"@, encoded_hex(content));
    let l5 = field_line("refresh"@, interval_key(refresh));
    let l6 = field_line("last-success"@, decimal(last_success as nat));
    lemma_field_line_plain("id"@, id);
    lemma_field_line_plain("url"@, encoded_hex(url));
    lemma_field_line_plain("target"@, encoded_hex(target));
    lemma_field_line_plain("content"@, encoded_hex(content));
    lemma_field_line_plain("refresh"@, interval_key(refresh));
    lemma_field_line_plain("last-success"@, decimal(last_success as nat));
    let v = QX_RULE_SOURCE_VERSION@;
    let nl = seq!['\n'];
    let r5 = l5 + nl + l6;
    let r4 = l4 + nl + r5;
    let r3 = l3 + nl + r4;
    let r2 = l2 + nl + r3;
    let r1 = l1 + nl + r2;
    let text = qx_record(id, url, target, content, refresh, last_success);
    assert(text =~= v + nl + r1);
    assert(is_plain_field_line(v));
    lemma_line_cons(v, r1);
    lemma_line_cons(l1, r2);
    lemma_line_cons(l2, r3);
    lemma_line_cons(l3, r4);
    lemma_line_cons(l4, r5);
    lemma_line_cons(l5, l6);
    lemma_line_one(l6);
    assert(lines(text) =~= seq![v, l1, l2, l3, l4, l5, l6]);
}

proof fn lemma_qx_fields(
    id: Seq<char>,
    url: Seq<char>,
    target: Seq<char>,
    content: Seq<char>,
    refresh: RemoteSourceRefreshInterval,
    last_success: u64,
)
    requires
        is_stored_id(id, QX_RULE_SOURCE_PREFIX@),
    ensures
        read_qx_fields(
            seq![
                field_line("id"@, id),
                field_line("url"@, encoded_hex(url)),
                field_line("target"@, encoded_hex(target)),
                field_line("content"@, encoded_hex(content)),
                field_line("refresh"@, interval_key(refresh)),
                field_line("last-success"@, decimal(last_success as nat)),
            ],
        ) == Some(
            QxFields {
                id: Some(id),
                url: Some(url),
                target: Some(target),
                content: Some(content),
                refresh: Some(refresh),
                last_success: Some(last_success),
            },
        ),
{
    lemma_keys_distinct();
    lemma_qx_id_plain(id);
    lemma_split_field("id"@, id);
    let l1 = field_line("id"@, id);
    let l2 = field_line("url"@, encoded_hex(url));
    let l3 = field_line("target"@, encoded_hex(target));
    let l4 = field_line("content"@, encoded_hex(content));
    let l5 = field_line("refresh"@, interval_key(refresh));
    let l6 = field_line("last-success"@, decimal(last_success as nat));
    let a0 = no_qx_fields();
    let a1 = QxFields { id: Some(id), ..a0 };
    let a2 = QxFields { url: Some(url), ..a1 };
    let a3 = QxFields { target: Some(target), ..a2 };
    let a4 = QxFields { content: Some(content), ..a3 };
    let a5 = QxFields { refresh: Some(refresh), ..a4 };
    let a6 = QxFields { last_success: Some(last_success), ..a5 };
    assert(read_qx_field(a0, l1) == Some(a1));
    lemma_read_qx_hex(a1, "url"@, url);
    lemma_read_qx_hex(a2, "target"@, target);
    lemma_read_qx_hex(a3, "content"@, content);
    lemma_read_qx_tail(a4, refresh, last_success);
    let s1 = seq![l1];
    let s2 = s1.push(l2);
    let s3 = s2.push(l3);
    let s4 = s3.push(l4);
    let s5 = s4.push(l5);
    let s6 = s5.push(l6);
    assert(s1.drop_last() =~= Seq::<Seq<char>>::empty());
    assert(read_qx_fields(Seq::<Seq<char>>::empty()) == Some(a0));
    assert(read_qx_fields(s1) == Some(a1));
    assert(s2.drop_last() =~= s1);
    assert(read_qx_fields(s2) == Some(a2));
    assert(s3.drop_last() =~= s2);
    assert(read_qx_fields(s3) == Some(a3));
    assert(s4.drop_last() =~= s3);
    assert(read_qx_fields(s4) == Some(a4));
    assert(s5.drop_last() =~= s4);
    assert(read_qx_fields(s5) == Some(a5));
    assert(s6.drop_last() =~= s5);
    assert(read_qx_fields(s6) == Some(a6));
    assert(s6 =~= seq![l1, l2, l3, l4, l5, l6]);
}

/// A saved QX rule source reads back as the identifier, URL, target policy, rule-list text,
/// refresh interval and last successful update that were written.
pub proof fn lemma_qx_record_round_trip(
    id: Seq<char>,
    url: Seq<char>,
    target: Seq<char>,
    content: Seq<char>,
    refresh: RemoteSourceRefreshInterval,
    last_success: u64,
)
    requires
        is_stored_id(id, QX_RULE_SOURCE_PREFIX@),
        is_https_input(url),
        is_valid_name(target),
        is_qx_content(content),
    ensures
        decoded_qx_record(qx_record(id, url, target, content, refresh, last_success), id)
            == Some((id, url, target, content, refresh, last_success)),
{
    lemma_qx_lines(id, url, target, content, refresh, last_success);
    lemma_qx_fields(id, url, target, content, refresh, last_success);
    let ls = lines(qx_record(id, url, target, content, refresh, last_success));
    assert(ls.skip(1) =~= seq![
        field_line("id"@, id),
        field_line("url"@, encoded_hex(url)),
        field_line("target"@, encoded_hex(target)),
        field_line("content"@, encoded_hex(content)),
        field_line("refresh"@, interval_key(refresh)),
        field_line("last-success"@, decimal(last_success as nat)),
    ]);
}

} // verus!
