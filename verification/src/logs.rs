//! The log workspace's text: the search over UI and kernel log entries, the summary line and
//! the clock time shown beside each entry.
use vstd::prelude::*;

use crate::diagnostics::{EntryView, UiLogEntry};
use crate::system_proxy::Language;
use crate::diagnostics::lemma_decimal_digits;
use crate::text::{all_digits, chars_of, contains_seq, decimal, digits_value, find_seq, push_decimal};

verus! {

/// What `str::to_lowercase` gives for `s`.
pub uninterp spec fn unicode_lower(s: Seq<char>) -> Seq<char>;

/// Lower-cases text with `str::to_lowercase`, which maps each character by Unicode's
/// lowercase mapping; the result is a function of the text alone.
#[verifier::external_body]
fn lowercase(s: &str) -> (r: String)
    ensures
        r@ == unicode_lower(s@),
{
    s.to_lowercase()
}

/// The decimal numeral of `n` with leading zeros up to `width` characters, as `{:0width}`
/// writes it.
pub open spec fn padded_decimal(n: nat, width: nat) -> Seq<char> {
    if decimal(n).len() < width {
        Seq::new((width - decimal(n).len()) as nat, |i: int| '0') + decimal(n)
    } else {
        decimal(n)
    }
}

proof fn lemma_zeros_value(z: Seq<char>, x: Seq<char>)
    requires
        forall|i: int| 0 <= i < z.len() ==> z[i] == '0',
    ensures
        digits_value(z + x) == digits_value(x),
    decreases x.len() + z.len(),
{
    if x.len() == 0 {
        assert(z + x =~= z);
        if z.len() > 0 {
            lemma_zeros_value(z.drop_last(), x);
            assert(z.drop_last() + x =~= z.drop_last());
        }
    } else {
        lemma_zeros_value(z, x.drop_last());
        assert((z + x).drop_last() =~= z + x.drop_last());
        assert((z + x).last() == x.last());
    }
}

/// A zero-padded numeral has at least `width` characters, all of them decimal digits, and
/// reads back as the number.
pub proof fn lemma_padded_decimal(n: nat, width: nat)
    ensures
        padded_decimal(n, width).len() == if decimal(n).len() < width {
            width
        } else {
            decimal(n).len()
        },
        all_digits(padded_decimal(n, width)),
        digits_value(padded_decimal(n, width)) == n,
{
    lemma_decimal_digits(n);
    if decimal(n).len() < width {
        let z = Seq::new((width - decimal(n).len()) as nat, |i: int| '0');
        lemma_zeros_value(z, decimal(n));
        let p = padded_decimal(n, width);
        assert forall|i: int| 0 <= i < p.len() implies crate::text::is_ascii_digit(#[trigger] p[i]) by {
            if i >= z.len() {
                assert(p[i] == decimal(n)[i - z.len()]);
            }
        }
    }
}

proof fn lemma_two_digits(n: nat)
    requires
        n < 100,
    ensures
        padded_decimal(n, 2).len() == 2,
        digits_value(padded_decimal(n, 2)) == n,
        all_digits(padded_decimal(n, 2)),
{
    lemma_padded_decimal(n, 2);
    lemma_decimal_digits(n);
    if n >= 10 {
        lemma_decimal_digits(n / 10);
        assert(decimal(n / 10).len() == 1);
    }
}

fn push_padded_decimal(out: &mut String, n: u128, width: usize)
    ensures
        final(out)@ == old(out)@ + padded_decimal(n as nat, width as nat),
{
    let mut digits = String::new();
    push_decimal(&mut digits, n);
    assert(digits@ == decimal(n as nat));
    let len: usize = chars_of(digits.as_str()).len();
    let ghost start = out@;
    let mut k: usize = len;
    while k < width
        invariant
            len == decimal(n as nat).len(),
            len <= k <= width || (k == len && len > width),
            out@ == start + Seq::new((k - len) as nat, |i: int| '0'),
        decreases width - k,
    {
        out.push('0');
        k = k + 1;
        assert(out@ =~= start + Seq::new((k - len) as nat, |i: int| '0'));
    }
    out.append(digits.as_str());
    if len >= width {
        assert(out@ =~= start + padded_decimal(n as nat, width as nat));
    } else {
        assert(out@ =~= start + padded_decimal(n as nat, width as nat));
    }
}

/// The label of an operation in the log, `op-` and its number in at least four digits.
pub open spec fn operation_label(operation: u64) -> Seq<char> {
    "op-"@ + padded_decimal(operation as nat, 4)
}

/// The label of a kernel log entry, `k#` and its sequence number in at least four digits.
pub open spec fn kernel_label(sequence: u64) -> Seq<char> {
    "k#"@ + padded_decimal(sequence as nat, 4)
}

/// Whether one of `texts` holds `needle`.
pub open spec fn any_holds(texts: Seq<Seq<char>>, needle: Seq<char>) -> bool {
    exists|i: int| 0 <= i < texts.len() && contains_seq(#[trigger] texts[i], needle)
}

pub open spec fn string_views(v: Seq<String>) -> Seq<Seq<char>> {
    v.map_values(|s: String| s@)
}

fn holds_text(text: &str, needle: &str) -> (r: bool)
    ensures
        r == contains_seq(text@, needle@),
{
    let t = chars_of(text);
    let n = chars_of(needle);
    find_seq(t.as_slice(), n.as_slice()).is_some()
}

/// Whether one of `texts` holds `needle`.
pub fn any_text_holds(texts: &Vec<String>, needle: &str) -> (r: bool)
    ensures
        r == any_holds(string_views(texts@), needle@),
{
    let mut i: usize = 0;
    while i < texts.len()
        invariant
            i <= texts.len(),
            forall|j: int| 0 <= j < i ==> !contains_seq(#[trigger] texts@[j]@, needle@),
        decreases texts.len() - i,
    {
        if holds_text(texts[i].as_str(), needle) {
            assert(string_views(texts@)[i as int] == texts@[i as int]@);
            return true;
        }
        i = i + 1;
    }
    assert forall|j: int| 0 <= j < texts@.len() implies !contains_seq(
        #[trigger] string_views(texts@)[j],
        needle@,
    ) by {
        assert(string_views(texts@)[j] == texts@[j]@);
    }
    false
}

/// The texts of a UI log entry that the search reads case-insensitively: its event, level,
/// detail and operation label, where it has them.
pub open spec fn ui_log_texts(e: EntryView) -> Seq<Seq<char>> {
    seq![e.event, e.level] + match e.detail {
        Some(d) => seq![d],
        None => Seq::empty(),
    } + match e.operation_id {
        Some(op) => seq![operation_label(op)],
        None => Seq::empty(),
    }
}

/// Whether a UI log entry matches a search: every entry matches an empty query; otherwise the
/// lower-cased query stands in one of its lower-cased texts, or in its sequence number.
pub open spec fn ui_log_matches(e: EntryView, query: Seq<char>) -> bool {
    query.len() == 0 || any_holds(ui_log_texts(e).map_values(|t: Seq<char>| unicode_lower(t)), unicode_lower(query))
        || contains_seq(decimal(e.sequence as nat), unicode_lower(query))
}

/// Whether a UI log entry matches the text typed into the log search.
pub fn ui_log_matches_query(entry: &UiLogEntry, query: &str) -> (r: bool)
    ensures
        r == ui_log_matches(entry@, query@),
{
    if chars_of(query).len() == 0 {
        return true;
    }
    let q = lowercase(query);
    let mut lowered: Vec<String> = Vec::new();
    lowered.push(lowercase(entry.event.as_str()));
    lowered.push(lowercase(entry.level.as_str()));
    if let Some(detail) = &entry.detail {
        lowered.push(lowercase(detail.as_str()));
    }
    if let Some(operation) = entry.operation_id {
        let mut label = "op-".to_owned();
        push_padded_decimal(&mut label, operation as u128, 4);
        lowered.push(lowercase(label.as_str()));
    }
    let ghost texts = ui_log_texts(entry@);
    assert(string_views(lowered@) =~= texts.map_values(|t: Seq<char>| unicode_lower(t)));
    if any_text_holds(&lowered, q.as_str()) {
        return true;
    }
    let mut number = String::new();
    push_decimal(&mut number, entry.sequence as u128);
    holds_text(number.as_str(), q.as_str())
}

/// The log search reads every text of a UI entry: an empty query matches; a query that the
/// event, level, detail or `op-NNNN` operation label holds, once both are lower-cased, or that
/// the decimal sequence number holds as lower-cased, matches; and no other query does.
pub proof fn lemma_ui_log_search_reads_every_text(e: EntryView, query: Seq<char>)
    ensures
        ui_log_matches(e, query) <==> {
            let q = unicode_lower(query);
            ||| query.len() == 0
            ||| contains_seq(unicode_lower(e.event), q)
            ||| contains_seq(unicode_lower(e.level), q)
            ||| (e.detail matches Some(d) && contains_seq(unicode_lower(d), q))
            ||| (e.operation_id matches Some(op) && contains_seq(
                unicode_lower("op-"@ + padded_decimal(op as nat, 4)),
                q,
            ))
            ||| contains_seq(decimal(e.sequence as nat), q)
        },
{
    let q = unicode_lower(query);
    let texts = ui_log_texts(e);
    let lowered = texts.map_values(|t: Seq<char>| unicode_lower(t));
    let head = seq![e.event, e.level];
    let d = match e.detail {
        Some(d) => seq![d],
        None => Seq::<Seq<char>>::empty(),
    };
    assert(texts == head + d + match e.operation_id {
        Some(op) => seq![operation_label(op)],
        None => Seq::<Seq<char>>::empty(),
    });
    assert(lowered[0] == unicode_lower(e.event));
    assert(lowered[1] == unicode_lower(e.level));
    if let Some(x) = e.detail {
        assert(texts[2] == x);
        assert(lowered[2] == unicode_lower(x));
    }
    if let Some(op) = e.operation_id {
        assert(texts[2 + d.len() as int] == operation_label(op));
        assert(lowered[2 + d.len() as int] == unicode_lower(operation_label(op)));
    }
    if any_holds(lowered, q) {
        let n = choose|n: int| 0 <= n < lowered.len() && contains_seq(#[trigger] lowered[n], q);
        if n >= 2 && n < 2 + d.len() {
            assert(texts[n] == e.detail->Some_0);
        } else if n >= 2 + d.len() {
            assert(texts[n] == operation_label(e.operation_id->Some_0));
        }
    }
}

/// A line of the proxy kernel's log stream.
#[derive(Clone, Debug, PartialEq, Eq)]
pub struct KernelLogEntry {
    pub sequence: u64,
    pub level: String,
    pub payload: String,
    pub timestamp_ms: u128,
}

/// Whether a kernel log entry matches a search: every entry matches an empty query; otherwise
/// the lower-cased query stands in the lower-cased level or payload, or in the entry's label.
pub open spec fn kernel_log_matches(
    sequence: u64,
    level: Seq<char>,
    payload: Seq<char>,
    query: Seq<char>,
) -> bool {
    ||| query.len() == 0
    ||| contains_seq(unicode_lower(level), unicode_lower(query))
    ||| contains_seq(unicode_lower(payload), unicode_lower(query))
    ||| contains_seq(kernel_label(sequence), unicode_lower(query))
}

/// The log search reads every text of a kernel entry: an empty query matches; a query that
/// the level or payload holds once both are lower-cased, or that the entry's `k#NNNN` label
/// holds as lower-cased, matches; and no other query does.
pub proof fn lemma_kernel_log_search_reads_every_text(
    sequence: u64,
    level: Seq<char>,
    payload: Seq<char>,
    query: Seq<char>,
)
    ensures
        kernel_log_matches(sequence, level, payload, query) <==> {
            let q = unicode_lower(query);
            ||| query.len() == 0
            ||| contains_seq(unicode_lower(level), q)
            ||| contains_seq(unicode_lower(payload), q)
            ||| contains_seq("k#"@ + padded_decimal(sequence as nat, 4), q)
        },
{
}

/// Whether a kernel log entry matches the text typed into the log search.
pub fn kernel_log_matches_query(entry: &KernelLogEntry, query: &str) -> (r: bool)
    ensures
        r == kernel_log_matches(entry.sequence, entry.level@, entry.payload@, query@),
{
    if chars_of(query).len() == 0 {
        return true;
    }
    let q = lowercase(query);
    let level = lowercase(entry.level.as_str());
    if holds_text(level.as_str(), q.as_str()) {
        return true;
    }
    let payload = lowercase(entry.payload.as_str());
    if holds_text(payload.as_str(), q.as_str()) {
        return true;
    }
    let mut label = "k#".to_owned();
    push_padded_decimal(&mut label, entry.sequence as u128, 4);
    holds_text(label.as_str(), q.as_str())
}

/// What the activity search reads of a live connection: its target host and address, the
/// process that opened it, the rule that routed it and the chain of proxies it went through.
pub struct ConnectionSearchText {
    pub host: Option<String>,
    pub destination_ip: Option<String>,
    pub process: Option<String>,
    pub process_path: Option<String>,
    pub rule: Option<String>,
    pub rule_payload: Option<String>,
    pub chains: Vec<String>,
}

pub open spec fn present_text(o: Option<String>) -> Seq<Seq<char>> {
    match o {
        Some(t) => seq![t@],
        None => Seq::empty(),
    }
}

/// The fields of a connection that the search reads, each that is present.
pub open spec fn connection_fields(c: ConnectionSearchText) -> Seq<Seq<char>> {
    present_text(c.host) + present_text(c.destination_ip) + present_text(c.process)
        + present_text(c.process_path) + present_text(c.rule) + present_text(c.rule_payload)
}

/// Whether a connection matches a search: every connection matches an empty query; otherwise
/// the lower-cased query stands in one of its lower-cased fields or in a lower-cased proxy of
/// its chain.
pub open spec fn connection_matches(c: ConnectionSearchText, query: Seq<char>) -> bool {
    ||| query.len() == 0
    ||| any_holds(
        connection_fields(c).map_values(|t: Seq<char>| unicode_lower(t)),
        unicode_lower(query),
    )
    ||| exists|i: int|
        0 <= i < c.chains@.len() && contains_seq(
            unicode_lower(#[trigger] c.chains@[i]@),
            unicode_lower(query),
        )
}

fn push_lowered(texts: &mut Vec<String>, o: &Option<String>)
    ensures
        string_views(final(texts)@) == string_views(old(texts)@) + present_text(*o).map_values(
            |t: Seq<char>| unicode_lower(t),
        ),
{
    let ghost before = texts@;
    if let Some(t) = o {
        texts.push(lowercase(t.as_str()));
        assert(string_views(texts@) =~= string_views(before) + present_text(*o).map_values(
            |t: Seq<char>| unicode_lower(t),
        ));
    } else {
        assert(string_views(texts@) =~= string_views(before) + present_text(*o).map_values(
            |t: Seq<char>| unicode_lower(t),
        ));
    }
}

/// Whether a live connection matches the text typed into the activity search.
pub fn connection_matches_query(connection: &ConnectionSearchText, query: &str) -> (r: bool)
    ensures
        r == connection_matches(*connection, query@),
{
    if chars_of(query).len() == 0 {
        return true;
    }
    let q = lowercase(query);
    let mut lowered: Vec<String> = Vec::new();
    push_lowered(&mut lowered, &connection.host);
    push_lowered(&mut lowered, &connection.destination_ip);
    push_lowered(&mut lowered, &connection.process);
    push_lowered(&mut lowered, &connection.process_path);
    push_lowered(&mut lowered, &connection.rule);
    push_lowered(&mut lowered, &connection.rule_payload);
    let ghost c = *connection;
    assert(string_views(lowered@) =~= connection_fields(c).map_values(
        |t: Seq<char>| unicode_lower(t),
    ));
    if any_text_holds(&lowered, q.as_str()) {
        return true;
    }
    let mut i: usize = 0;
    while i < connection.chains.len()
        invariant
            i <= connection.chains.len(),
            q@ == unicode_lower(query@),
            forall|j: int|
                0 <= j < i ==> !contains_seq(
                    unicode_lower(#[trigger] connection.chains@[j]@),
                    unicode_lower(query@),
                ),
        decreases connection.chains.len() - i,
    {
        let proxy = lowercase(connection.chains[i].as_str());
        if holds_text(proxy.as_str(), q.as_str()) {
            return true;
        }
        i = i + 1;
    }
    false
}

/// Whether `field` is present and holds `query` once both are lower-cased.
pub open spec fn field_holds(field: Option<String>, query: Seq<char>) -> bool {
    field matches Some(t) && contains_seq(unicode_lower(t@), unicode_lower(query))
}

/// The activity search reads every field of a connection: an empty query matches; a query
/// that the host, destination address, process, process path, rule, rule payload or a proxy of
/// the chain holds, once both are lower-cased, matches; and no other query does.
pub proof fn lemma_connection_search_reads_every_field(c: ConnectionSearchText, query: Seq<char>)
    ensures
        connection_matches(c, query) <==> {
            ||| query.len() == 0
            ||| field_holds(c.host, query)
            ||| field_holds(c.destination_ip, query)
            ||| field_holds(c.process, query)
            ||| field_holds(c.process_path, query)
            ||| field_holds(c.rule, query)
            ||| field_holds(c.rule_payload, query)
            ||| exists|i: int|
                0 <= i < c.chains@.len() && contains_seq(
                    unicode_lower(#[trigger] c.chains@[i]@),
                    unicode_lower(query),
                )
        },
{
    let q = unicode_lower(query);
    let fields = connection_fields(c);
    let lowered = fields.map_values(|t: Seq<char>| unicode_lower(t));
    let singles = seq![c.host, c.destination_ip, c.process, c.process_path, c.rule, c.rule_payload];
    assert forall|k: int| 0 <= k < 6 implies field_holds(#[trigger] singles[k], query) ==> any_holds(
        lowered,
        q,
    ) by {
        if field_holds(singles[k], query) {
            let t = singles[k]->Some_0;
            let before = if k == 0 {
                Seq::<Seq<char>>::empty()
            } else if k == 1 {
                present_text(c.host)
            } else if k == 2 {
                present_text(c.host) + present_text(c.destination_ip)
            } else if k == 3 {
                present_text(c.host) + present_text(c.destination_ip) + present_text(c.process)
            } else if k == 4 {
                present_text(c.host) + present_text(c.destination_ip) + present_text(c.process)
                    + present_text(c.process_path)
            } else {
                present_text(c.host) + present_text(c.destination_ip) + present_text(c.process)
                    + present_text(c.process_path) + present_text(c.rule)
            };
            let n = before.len() as int;
            assert(fields[n] == t@);
            assert(lowered[n] == unicode_lower(t@));
        }
    }
    if any_holds(lowered, q) {
        let n = choose|n: int| 0 <= n < lowered.len() && contains_seq(#[trigger] lowered[n], q);
        let a = present_text(c.host);
        let b = a + present_text(c.destination_ip);
        let d = b + present_text(c.process);
        let e = d + present_text(c.process_path);
        let f = e + present_text(c.rule);
        assert(fields == f + present_text(c.rule_payload));
        if n < a.len() {
            assert(fields[n] == c.host->Some_0@);
            assert(field_holds(c.host, query));
        } else if n < b.len() {
            assert(fields[n] == c.destination_ip->Some_0@);
            assert(field_holds(c.destination_ip, query));
        } else if n < d.len() {
            assert(fields[n] == c.process->Some_0@);
            assert(field_holds(c.process, query));
        } else if n < e.len() {
            assert(fields[n] == c.process_path->Some_0@);
            assert(field_holds(c.process_path, query));
        } else if n < f.len() {
            assert(fields[n] == c.rule->Some_0@);
            assert(field_holds(c.rule, query));
        } else {
            assert(fields[n] == c.rule_payload->Some_0@);
            assert(field_holds(c.rule_payload, query));
        }
    }
    assert(singles[0] == c.host);
    assert(singles[1] == c.destination_ip);
    assert(singles[2] == c.process);
    assert(singles[3] == c.process_path);
    assert(singles[4] == c.rule);
    assert(singles[5] == c.rule_payload);
}

/// The summary line above the log list, in the selected language.
pub open spec fn logs_summary_text(
    language: Language,
    count: nat,
    live_status: Seq<char>,
    dropped: nat,
) -> Seq<char> {
    match language {
        Language::English => decimal(count) + " entries · persistent event chain with OP IDs · Mihomo "@
            + live_status + " · dropped "@ + decimal(dropped)
            + " overloaded logs · URLs/tokens redacted"@,
        Language::SimplifiedChinese => decimal(count) + " 条 · 操作链与 OP 编号已持久化 · Mihomo "@
            + live_status + " · 已丢弃 "@ + decimal(dropped) + " 条过载日志 · URL/令牌已脱敏"@,
    }
}

/// The summary line above the log list: how many entries are shown, the live stream's status
/// and how many kernel lines were dropped under load.
pub fn logs_summary(language: Language, count: usize, live_status: &str, dropped: u64) -> (r:
    String)
    ensures
        r@ == logs_summary_text(language, count as nat, live_status@, dropped as nat),
{
    let mut out = String::new();
    push_decimal(&mut out, count as u128);
    match language {
        Language::English => {
            out.append(" entries · persistent event chain with OP IDs · Mihomo ");
            out.append(live_status);
            out.append(" · dropped ");
            push_decimal(&mut out, dropped as u128);
            out.append(" overloaded logs · URLs/tokens redacted");
        },
        Language::SimplifiedChinese => {
            out.append(" 条 · 操作链与 OP 编号已持久化 · Mihomo ");
            out.append(live_status);
            out.append(" · 已丢弃 ");
            push_decimal(&mut out, dropped as u128);
            out.append(" 条过载日志 · URL/令牌已脱敏");
        },
    }
    out
}

/// The time of day of a log entry in UTC, `HH:MM:SS UTC`, from milliseconds since the epoch.
pub open spec fn log_time_text(timestamp_ms: nat) -> Seq<char> {
    let seconds = (timestamp_ms / 1000) % 86400;
    padded_decimal(seconds / 3600, 2) + ":"@ + padded_decimal(seconds % 3600 / 60, 2) + ":"@
        + padded_decimal(seconds % 60, 2) + " UTC"@
}

/// The time shown for an entry is the UTC time of day of its timestamp: `HH:MM:SS UTC`, whose
/// two-digit fields read back as hours below 24, minutes and seconds below 60, that add up to
/// the seconds since midnight.
pub proof fn lemma_log_time_reads_back(timestamp_ms: nat)
    ensures
        ({
            let t = log_time_text(timestamp_ms);
            let h = digits_value(t.subrange(0, 2));
            let m = digits_value(t.subrange(3, 5));
            let sec = digits_value(t.subrange(6, 8));
            &&& t.len() == 12
            &&& t[2] == ':' && t[5] == ':'
            &&& t.subrange(8, 12) == " UTC"@
            &&& all_digits(t.subrange(0, 2)) && all_digits(t.subrange(3, 5)) && all_digits(
                t.subrange(6, 8),
            )
            &&& h < 24 && m < 60 && sec < 60
            &&& h * 3600 + m * 60 + sec == (timestamp_ms / 1000) % 86400
        }),
{
    let seconds = (timestamp_ms / 1000) % 86400;
    let a = padded_decimal(seconds / 3600, 2);
    let b = padded_decimal(seconds % 3600 / 60, 2);
    let c = padded_decimal(seconds % 60, 2);
    assert(seconds / 3600 < 24) by (nonlinear_arith)
        requires seconds < 86400;
    assert(seconds % 3600 / 60 < 60) by (nonlinear_arith)
        requires seconds < 86400;
    lemma_two_digits(seconds / 3600);
    lemma_two_digits(seconds % 3600 / 60);
    lemma_two_digits(seconds % 60);
    reveal_strlit(":");
    reveal_strlit(" UTC");
    let t = log_time_text(timestamp_ms);
    assert(t =~= a + seq![':'] + b + seq![':'] + c + " UTC"@);
    assert(t.subrange(0, 2) =~= a);
    assert(t.subrange(3, 5) =~= b);
    assert(t.subrange(6, 8) =~= c);
    assert(t.subrange(8, 12) =~= " UTC"@);
    assert((seconds / 3600) * 3600 + (seconds % 3600 / 60) * 60 + seconds % 60 == seconds) by (
    nonlinear_arith);
}

/// Formats the time of day of a log entry.
pub fn format_log_time(timestamp_ms: u128) -> (r: String)
    ensures
        r@ == log_time_text(timestamp_ms as nat),
{
    let seconds = (timestamp_ms / 1000) % 86400;
    let mut out = String::new();
    push_padded_decimal(&mut out, seconds / 3600, 2);
    out.append(":");
    push_padded_decimal(&mut out, seconds % 3600 / 60, 2);
    out.append(":");
    push_padded_decimal(&mut out, seconds % 60, 2);
    out.append(" UTC");
    out
}

} // verus!
