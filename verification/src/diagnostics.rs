//! The in-memory user-interface log: bounded, redacted, and written to disk one line per entry
//! in a tab-separated format that reads back to the same entry.
use std::collections::VecDeque;

use vstd::prelude::*;

use crate::text::{
    all_digits, ascii_lower, chars_of, char_is_ascii_alphanumeric, contains_seq, contains_str,
    decimal, digit_char, digits_value, is_ascii_alphanumeric, join, join_chars, lowercase,
    parse_unsigned, parse_unsigned_exec, push_decimal, split_chars, split_n,
    string_of, unsigned_digits, views, words, words_of,
};
use crate::text::{
    is_whitespace, lacks_char, lemma_joined_lacks_seq, lemma_prefix_lacks_seq,
    lemma_push_lacks_seq, lemma_ws_end_bound, occurs_at, to_ascii_lower, ws_end,
};

verus! {

/// How many entries the in-memory log keeps.
pub const UI_LOG_CAPACITY: usize = 512;

/// Longest sanitized detail kept, in characters.
pub const MAX_DETAIL_CHARS: usize = 800;

/// Longest event fragment kept, in characters.
pub const MAX_FRAGMENT_CHARS: usize = 120;

#[derive(Clone, Copy, Debug, PartialEq, Eq, Structural)]
pub enum LogLevel {
    Debug,
    Info,
    Warn,
    Error,
}

pub open spec fn log_level_text(level: LogLevel) -> Seq<char> {
    match level {
        LogLevel::Debug => "DEBUG"@,
        LogLevel::Info => "INFO"@,
        LogLevel::Warn => "WARN"@,
        LogLevel::Error => "ERROR"@,
    }
}

impl LogLevel {
    pub fn as_str(self) -> (r: &'static str)
        ensures
            r@ == log_level_text(self),
    {
        match self {
            LogLevel::Debug => "DEBUG",
            LogLevel::Info => "INFO",
            LogLevel::Warn => "WARN",
            LogLevel::Error => "ERROR",
        }
    }
}

/// A user-interface event that is traced without any dynamic detail.
#[derive(Clone, Copy, Debug, PartialEq, Eq, Structural)]
pub enum UiEvent {
    WorkspacePoliciesOpened,
    WorkspaceNodesOpened,
    WorkspaceRoutingRulesOpened,
    WorkspaceActivityOpened,
    WorkspaceLogsOpened,
    WorkspaceConfigurationOpened,
    SourceRecognitionSucceeded,
    SourceRecognitionFailed,
    SourceImportStarted,
    SourceImportSucceeded,
    SourceImportFailed,
    SourceRestoreStarted,
    SourceRestoreSucceeded,
    SourceRestoreFailed,
    SourceRemoveStarted,
    SourceRemoveSucceeded,
    SourceRemoveFailed,
    SubscriptionDraftCleared,
    PolicyPreviewOpened,
    MihomoConnectStarted,
    MihomoConnectSucceeded,
    MihomoConnectFailed,
    GroupBenchmarkStarted,
    GroupBenchmarkSucceeded,
    GroupBenchmarkFailed,
    ThemeLightSelected,
    ThemeDarkSelected,
    SystemProxyEnabled,
    SystemProxyDisabled,
    TunProxyEnabled,
    ProxyModeFailed,
    RoutingModeChanged,
    RoutingModeFailed,
    GlobalNodeSelected,
    GlobalNodeSelectionFailed,
    RouteInspectorOpened,
    RouteInspectorClosed,
    RoutePredictionRequested,
}

/// The stable event name of a user-interface event.
pub open spec fn ui_event_text(event: UiEvent) -> Seq<char> {
    match event {
        UiEvent::WorkspacePoliciesOpened => "workspace.policies.opened"@,
        UiEvent::WorkspaceNodesOpened => "workspace.nodes.opened"@,
        UiEvent::WorkspaceRoutingRulesOpened => "workspace.routing_rules.opened"@,
        UiEvent::WorkspaceActivityOpened => "workspace.activity.opened"@,
        UiEvent::WorkspaceLogsOpened => "workspace.logs.opened"@,
        UiEvent::WorkspaceConfigurationOpened => "workspace.configuration.opened"@,
        UiEvent::SourceRecognitionSucceeded => "configuration.source_recognition.succeeded"@,
        UiEvent::SourceRecognitionFailed => "configuration.source_recognition.failed"@,
        UiEvent::SourceImportStarted => "configuration.source_import.started"@,
        UiEvent::SourceImportSucceeded => "configuration.source_import.succeeded"@,
        UiEvent::SourceImportFailed => "configuration.source_import.failed"@,
        UiEvent::SourceRestoreStarted => "configuration.source_restore.started"@,
        UiEvent::SourceRestoreSucceeded => "configuration.source_restore.succeeded"@,
        UiEvent::SourceRestoreFailed => "configuration.source_restore.failed"@,
        UiEvent::SourceRemoveStarted => "configuration.source_remove.started"@,
        UiEvent::SourceRemoveSucceeded => "configuration.source_remove.succeeded"@,
        UiEvent::SourceRemoveFailed => "configuration.source_remove.failed"@,
        UiEvent::SubscriptionDraftCleared => "configuration.subscription_draft.cleared"@,
        UiEvent::PolicyPreviewOpened => "configuration.policy_preview.opened"@,
        UiEvent::MihomoConnectStarted => "mihomo.connect.started"@,
        UiEvent::MihomoConnectSucceeded => "mihomo.connect.succeeded"@,
        UiEvent::MihomoConnectFailed => "mihomo.connect.failed"@,
        UiEvent::GroupBenchmarkStarted => "group_benchmark.started"@,
        UiEvent::GroupBenchmarkSucceeded => "group_benchmark.succeeded"@,
        UiEvent::GroupBenchmarkFailed => "group_benchmark.failed"@,
        UiEvent::ThemeLightSelected => "theme.light.selected"@,
        UiEvent::ThemeDarkSelected => "theme.dark.selected"@,
        UiEvent::SystemProxyEnabled => "system_proxy.enabled"@,
        UiEvent::SystemProxyDisabled => "system_proxy.disabled"@,
        UiEvent::TunProxyEnabled => "tun_proxy.enabled"@,
        UiEvent::ProxyModeFailed => "proxy_mode.failed"@,
        UiEvent::RoutingModeChanged => "routing_mode.changed"@,
        UiEvent::RoutingModeFailed => "routing_mode.failed"@,
        UiEvent::GlobalNodeSelected => "global_node.selected"@,
        UiEvent::GlobalNodeSelectionFailed => "global_node.selection_failed"@,
        UiEvent::RouteInspectorOpened => "route_inspector.opened"@,
        UiEvent::RouteInspectorClosed => "route_inspector.closed"@,
        UiEvent::RoutePredictionRequested => "route_prediction.requested"@,
    }
}

impl UiEvent {
    pub fn as_str(self) -> (r: &'static str)
        ensures
            r@ == ui_event_text(self),
    {
        match self {
            UiEvent::WorkspacePoliciesOpened => "workspace.policies.opened",
            UiEvent::WorkspaceNodesOpened => "workspace.nodes.opened",
            UiEvent::WorkspaceRoutingRulesOpened => "workspace.routing_rules.opened",
            UiEvent::WorkspaceActivityOpened => "workspace.activity.opened",
            UiEvent::WorkspaceLogsOpened => "workspace.logs.opened",
            UiEvent::WorkspaceConfigurationOpened => "workspace.configuration.opened",
            UiEvent::SourceRecognitionSucceeded => "configuration.source_recognition.succeeded",
            UiEvent::SourceRecognitionFailed => "configuration.source_recognition.failed",
            UiEvent::SourceImportStarted => "configuration.source_import.started",
            UiEvent::SourceImportSucceeded => "configuration.source_import.succeeded",
            UiEvent::SourceImportFailed => "configuration.source_import.failed",
            UiEvent::SourceRestoreStarted => "configuration.source_restore.started",
            UiEvent::SourceRestoreSucceeded => "configuration.source_restore.succeeded",
            UiEvent::SourceRestoreFailed => "configuration.source_restore.failed",
            UiEvent::SourceRemoveStarted => "configuration.source_remove.started",
            UiEvent::SourceRemoveSucceeded => "configuration.source_remove.succeeded",
            UiEvent::SourceRemoveFailed => "configuration.source_remove.failed",
            UiEvent::SubscriptionDraftCleared => "configuration.subscription_draft.cleared",
            UiEvent::PolicyPreviewOpened => "configuration.policy_preview.opened",
            UiEvent::MihomoConnectStarted => "mihomo.connect.started",
            UiEvent::MihomoConnectSucceeded => "mihomo.connect.succeeded",
            UiEvent::MihomoConnectFailed => "mihomo.connect.failed",
            UiEvent::GroupBenchmarkStarted => "group_benchmark.started",
            UiEvent::GroupBenchmarkSucceeded => "group_benchmark.succeeded",
            UiEvent::GroupBenchmarkFailed => "group_benchmark.failed",
            UiEvent::ThemeLightSelected => "theme.light.selected",
            UiEvent::ThemeDarkSelected => "theme.dark.selected",
            UiEvent::SystemProxyEnabled => "system_proxy.enabled",
            UiEvent::SystemProxyDisabled => "system_proxy.disabled",
            UiEvent::TunProxyEnabled => "tun_proxy.enabled",
            UiEvent::ProxyModeFailed => "proxy_mode.failed",
            UiEvent::RoutingModeChanged => "routing_mode.changed",
            UiEvent::RoutingModeFailed => "routing_mode.failed",
            UiEvent::GlobalNodeSelected => "global_node.selected",
            UiEvent::GlobalNodeSelectionFailed => "global_node.selection_failed",
            UiEvent::RouteInspectorOpened => "route_inspector.opened",
            UiEvent::RouteInspectorClosed => "route_inspector.closed",
            UiEvent::RoutePredictionRequested => "route_prediction.requested",
        }
    }
}

/// One entry of the user-interface log.
#[derive(Debug, PartialEq, Eq)]
pub struct UiLogEntry {
    pub sequence: u64,
    pub timestamp_ms: u128,
    pub level: String,
    pub operation_id: Option<u64>,
    pub event: String,
    pub detail: Option<String>,
}

/// What an entry holds, with its texts as character sequences.
pub struct EntryView {
    pub sequence: u64,
    pub timestamp_ms: u128,
    pub level: Seq<char>,
    pub operation_id: Option<u64>,
    pub event: Seq<char>,
    pub detail: Option<Seq<char>>,
}

pub open spec fn text_view(o: Option<String>) -> Option<Seq<char>> {
    match o {
        Some(s) => Some(s@),
        None => None,
    }
}

impl View for UiLogEntry {
    type V = EntryView;

    open spec fn view(&self) -> EntryView {
        EntryView {
            sequence: self.sequence,
            timestamp_ms: self.timestamp_ms,
            level: self.level@,
            operation_id: self.operation_id,
            event: self.event@,
            detail: text_view(self.detail),
        }
    }
}

fn clone_text(o: &Option<String>) -> (r: Option<String>)
    ensures
        text_view(r) == text_view(*o),
{
    match o {
        Some(s) => Some(s.clone()),
        None => None,
    }
}

impl Clone for UiLogEntry {
    fn clone(&self) -> (r: Self)
        ensures
            r@ == self@,
    {
        UiLogEntry {
            sequence: self.sequence,
            timestamp_ms: self.timestamp_ms,
            level: self.level.clone(),
            operation_id: self.operation_id,
            event: self.event.clone(),
            detail: clone_text(&self.detail),
        }
    }
}

pub open spec fn entry_views(s: Seq<UiLogEntry>) -> Seq<EntryView> {
    s.map_values(|e: UiLogEntry| e@)
}

pub open spec fn operation_text(o: Option<u64>) -> Seq<char> {
    match o {
        Some(n) => decimal(n as nat),
        None => "-"@,
    }
}

pub open spec fn detail_text(o: Option<Seq<char>>) -> Seq<char> {
    match o {
        Some(d) => d,
        None => "-"@,
    }
}

/// The durable line of an entry: timestamp, sequence, level, operation, event and detail,
/// separated by tabs, with `-` for an absent operation or detail.
pub open spec fn line_text(e: EntryView) -> Seq<char> {
    decimal(e.timestamp_ms as nat) + "\t"@ + decimal(e.sequence as nat) + "\t"@ + e.level + "\t"@
        + operation_text(e.operation_id) + "\t"@ + e.event + "\t"@ + detail_text(e.detail)
}

/// What a durable line reads back as.
pub open spec fn parsed_line(line: Seq<char>) -> Option<EntryView> {
    let f = split_n(line, '\t', 6);
    if f.len() < 6 {
        None
    } else {
        match (parse_unsigned(f[0], u128::MAX as nat), parse_unsigned(f[1], u64::MAX as nat)) {
            (Some(ts), Some(sq)) => {
                let operation: Option<Option<u64>> = if f[3] == "-"@ {
                    Some(None)
                } else {
                    match parse_unsigned(f[3], u64::MAX as nat) {
                        Some(n) => Some(Some(n as u64)),
                        None => None,
                    }
                };
                match operation {
                    Some(operation_id) => Some(
                        EntryView {
                            sequence: sq as u64,
                            timestamp_ms: ts as u128,
                            level: f[2],
                            operation_id,
                            event: f[4],
                            detail: if f[5] == "-"@ {
                                None
                            } else {
                                Some(f[5])
                            },
                        },
                    ),
                    None => None,
                }
            },
            _ => None,
        }
    }
}

/// Formats an entry as one durable log line.
pub fn format_line(entry: &UiLogEntry) -> (r: String)
    ensures
        r@ == line_text(entry@),
{
    let mut out = String::new();
    push_decimal(&mut out, entry.timestamp_ms);
    out.append("\t");
    push_decimal(&mut out, entry.sequence as u128);
    out.append("\t");
    out.append(entry.level.as_str());
    out.append("\t");
    match entry.operation_id {
        Some(n) => push_decimal(&mut out, n as u128),
        None => out.append("-"),
    }
    out.append("\t");
    out.append(entry.event.as_str());
    out.append("\t");
    match &entry.detail {
        Some(d) => out.append(d.as_str()),
        None => out.append("-"),
    }
    assert(out@ =~= line_text(entry@));
    out
}

fn is_dash(v: &[char]) -> (r: bool)
    ensures
        r == (v@ == "-"@),
{
    let dash = chars_of("-");
    crate::text::chars_equal(v, dash.as_slice())
}

/// Reads one durable log line back into an entry.
pub fn parse_line(line: &str) -> (r: Option<UiLogEntry>)
    ensures
        r is Some <==> parsed_line(line@) is Some,
        r matches Some(e) ==> e@ == parsed_line(line@).unwrap(),
{
    let v = chars_of(line);
    let fields = split_chars(v.as_slice(), '\t', Some(6));
    let ghost f = split_n(line@, '\t', 6);
    assert(views(fields@) == f);
    if fields.len() < 6 {
        return None;
    }
    assert(fields@[0]@ == f[0] && fields@[1]@ == f[1] && fields@[2]@ == f[2]);
    assert(fields@[3]@ == f[3] && fields@[4]@ == f[4] && fields@[5]@ == f[5]);
    let timestamp_ms = parse_unsigned_exec(fields[0].as_slice(), u128::MAX)?;
    let sequence = parse_unsigned_exec(fields[1].as_slice(), u64::MAX as u128)?;
    let operation_id = if is_dash(fields[3].as_slice()) {
        None
    } else {
        Some(parse_unsigned_exec(fields[3].as_slice(), u64::MAX as u128)? as u64)
    };
    let detail = if is_dash(fields[5].as_slice()) {
        None
    } else {
        Some(string_of(fields[5].as_slice()))
    };
    Some(
        UiLogEntry {
            sequence: sequence as u64,
            timestamp_ms,
            level: string_of(fields[2].as_slice()),
            operation_id,
            event: string_of(fields[4].as_slice()),
            detail,
        },
    )
}


/// The lower-cased text holds a URL scheme that can carry secrets.
pub open spec fn has_url_scheme(lower: Seq<char>) -> bool {
    contains_seq(lower, "http://"@) || contains_seq(lower, "https://"@) || contains_seq(
        lower,
        "vless://"@,
    )
}

/// A word of a detail after redaction.
pub open spec fn redact_word(w: Seq<char>) -> Seq<char> {
    if has_url_scheme(ascii_lower(w)) {
        "<redacted-url>"@
    } else if contains_seq(ascii_lower(w), "token="@) {
        "<redacted-token>"@
    } else {
        w
    }
}

pub open spec fn redacted_words(ws: Seq<Seq<char>>) -> Seq<Seq<char>> {
    ws.map_values(|w: Seq<char>| redact_word(w))
}

/// A detail cut to `MAX_DETAIL_CHARS` characters, with an ellipsis when it was cut.
pub open spec fn bounded_detail(s: Seq<char>) -> Seq<char> {
    if s.len() > MAX_DETAIL_CHARS {
        s.take(MAX_DETAIL_CHARS as int).push('\u{2026}')
    } else {
        s
    }
}

/// A dynamic detail as it enters the log: one line of single-spaced words, URLs and tokens
/// redacted, bounded in length.
pub open spec fn sanitized_detail(s: Seq<char>) -> Seq<char> {
    bounded_detail(join(redacted_words(words(s)), " "@))
}

pub open spec fn is_fragment_char(c: char) -> bool {
    is_ascii_alphanumeric(c) || c == '.' || c == '_' || c == '-'
}

pub open spec fn fragment_chars(s: Seq<char>) -> Seq<char>
    decreases s.len(),
{
    if s.len() == 0 {
        Seq::empty()
    } else if is_fragment_char(s.last()) {
        fragment_chars(s.drop_last()).push(s.last())
    } else {
        fragment_chars(s.drop_last())
    }
}

pub open spec fn truncated(s: Seq<char>, n: nat) -> Seq<char> {
    if s.len() <= n {
        s
    } else {
        s.take(n as int)
    }
}

/// An event name as it enters the log: only ASCII letters, digits, `.`, `_` and `-`, at most
/// `MAX_FRAGMENT_CHARS` of them.
pub open spec fn sanitized_fragment(s: Seq<char>) -> Seq<char> {
    truncated(fragment_chars(s), MAX_FRAGMENT_CHARS as nat)
}

fn redact(word: &Vec<char>) -> (r: Vec<char>)
    ensures
        r@ == redact_word(word@),
{
    let lower = lowercase(word.as_slice());
    let http = chars_of("http://");
    let https = chars_of("https://");
    let vless = chars_of("vless://");
    let token = chars_of("token=");
    if contains_str(lower.as_slice(), http.as_slice()) || contains_str(
        lower.as_slice(),
        https.as_slice(),
    ) || contains_str(lower.as_slice(), vless.as_slice()) {
        chars_of("<redacted-url>")
    } else if contains_str(lower.as_slice(), token.as_slice()) {
        chars_of("<redacted-token>")
    } else {
        let mut copy: Vec<char> = Vec::new();
        let mut i: usize = 0;
        while i < word.len()
            invariant
                i <= word.len(),
                copy@ == word@.take(i as int),
            decreases word.len() - i,
        {
            copy.push(word[i]);
            i = i + 1;
            assert(copy@ =~= word@.take(i as int));
        }
        assert(word@.take(word.len() as int) == word@);
        copy
    }
}

/// Redacts URLs and tokens, removes line breaks, and bounds the length of a dynamic detail.
pub fn sanitize_detail(value: &str) -> (r: String)
    ensures
        r@ == sanitized_detail(value@),
{
    let v = chars_of(value);
    let ws = words_of(v.as_slice());
    let mut redacted: Vec<Vec<char>> = Vec::new();
    let mut i: usize = 0;
    while i < ws.len()
        invariant
            i <= ws.len(),
            views(redacted@) == redacted_words(views(ws@).take(i as int)),
        decreases ws.len() - i,
    {
        let w = redact(&ws[i]);
        let ghost before = views(redacted@);
        assert(views(ws@)[i as int] == ws@[i as int]@);
        assert(redacted_words(views(ws@).take(i + 1)) =~= redacted_words(
            views(ws@).take(i as int),
        ).push(redact_word(ws@[i as int]@)));
        redacted.push(w);
        assert(views(redacted@) =~= before.push(w@));
        i = i + 1;
        assert(views(redacted@) =~= redacted_words(views(ws@).take(i as int)));
    }
    assert(views(ws@).take(ws.len() as int) == views(ws@));
    let space = chars_of(" ");
    let joined = join_chars(&redacted, space.as_slice());
    if joined.len() > MAX_DETAIL_CHARS {
        let mut cut = crate::text::slice_chars(joined.as_slice(), 0, MAX_DETAIL_CHARS);
        cut.push('\u{2026}');
        assert(cut@ =~= joined@.take(MAX_DETAIL_CHARS as int).push('\u{2026}'));
        string_of(cut.as_slice())
    } else {
        string_of(joined.as_slice())
    }
}

/// Keeps only the safe characters of an event name and bounds its length.
pub fn sanitize_fragment(value: &str) -> (r: String)
    ensures
        r@ == sanitized_fragment(value@),
{
    let v = chars_of(value);
    let mut out: Vec<char> = Vec::new();
    let mut i: usize = 0;
    while i < v.len()
        invariant
            i <= v.len(),
            out@ == truncated(fragment_chars(v@.take(i as int)), MAX_FRAGMENT_CHARS as nat),
        decreases v.len() - i,
    {
        let c = v[i];
        let ghost before = fragment_chars(v@.take(i as int));
        assert(v@.take(i + 1).drop_last() == v@.take(i as int));
        if char_is_ascii_alphanumeric(c) || c == '.' || c == '_' || c == '-' {
            if out.len() < MAX_FRAGMENT_CHARS {
                out.push(c);
            }
            assert(fragment_chars(v@.take(i + 1)) == before.push(c));
        } else {
            assert(fragment_chars(v@.take(i + 1)) == before);
        }
        i = i + 1;
        assert(out@ =~= truncated(fragment_chars(v@.take(i as int)), MAX_FRAGMENT_CHARS as nat));
    }
    assert(v@.take(v.len() as int) == v@);
    string_of(out.as_slice())
}

pub open spec fn bounded_push(logs: Seq<EntryView>, entry: EntryView) -> Seq<EntryView> {
    if logs.len() == UI_LOG_CAPACITY {
        logs.drop_first().push(entry)
    } else {
        logs.push(entry)
    }
}

/// The log keeps the most recent entries: a push adds the entry as the newest, keeps every
/// earlier entry while there is room, and drops only the oldest one when the log is full.
pub proof fn lemma_bounded_push_keeps_recent(logs: Seq<EntryView>, entry: EntryView)
    requires
        logs.len() <= UI_LOG_CAPACITY,
    ensures
        bounded_push(logs, entry).len() == if logs.len() < UI_LOG_CAPACITY {
            logs.len() + 1
        } else {
            UI_LOG_CAPACITY as nat
        },
        bounded_push(logs, entry).last() == entry,
        bounded_push(logs, entry) == logs.push(entry).skip(
            logs.len() + 1 - bounded_push(logs, entry).len(),
        ),
{
    let r = bounded_push(logs, entry);
    if logs.len() == UI_LOG_CAPACITY {
        assert(r =~= logs.push(entry).skip(1));
    } else {
        assert(r =~= logs.push(entry).skip(0));
    }
}

/// Appends an entry, dropping the oldest one when the log is full.
pub fn push_bounded(logs: &mut VecDeque<UiLogEntry>, entry: UiLogEntry)
    requires
        old(logs)@.len() <= UI_LOG_CAPACITY,
    ensures
        entry_views(final(logs)@) == bounded_push(entry_views(old(logs)@), entry@),
        final(logs)@.len() <= UI_LOG_CAPACITY,
{
    let ghost before = entry_views(logs@);
    if logs.len() == UI_LOG_CAPACITY {
        logs.pop_front();
    }
    logs.push_back(entry);
    assert(entry_views(logs@) =~= bounded_push(before, entry@));
}


pub proof fn lemma_decimal_digits(n: nat)
    ensures
        decimal(n).len() >= 1,
        all_digits(decimal(n)),
        digits_value(decimal(n)) == n,
    decreases n,
{
    if n < 10 {
        let c = digit_char(n);
        assert((c as int) == n + 48);
        assert(decimal(n) == seq![c]);
        assert(seq![c].drop_last() =~= Seq::<char>::empty());
        assert(digits_value(seq![c]) == digits_value(seq![c].drop_last()) * 10 + ((c as int)
            - 48) as nat);
        assert(digits_value(Seq::<char>::empty()) == 0);
    } else {
        lemma_decimal_digits(n / 10);
        let c = digit_char(n % 10);
        assert((c as int) == n % 10 + 48);
        let s = decimal(n);
        assert(s.drop_last() == decimal(n / 10));
        assert(s.last() == c);
        assert(digits_value(s) == digits_value(s.drop_last()) * 10 + ((s.last() as int)
            - 48) as nat);
        assert(n == (n / 10) * 10 + n % 10);
    }
}

pub proof fn lemma_decimal_parses(n: nat, max: nat)
    requires
        n <= max,
    ensures
        parse_unsigned(decimal(n), max) == Some(n),
        !decimal(n).contains('\t'),
        decimal(n) != "-"@,
{
    reveal_strlit("-");
    lemma_decimal_digits(n);
    let s = decimal(n);
    assert(s[0] != '+');
    assert(unsigned_digits(s) == s);
    if s.contains('\t') {
        let j = choose|j: int| 0 <= j < s.len() && s[j] == '\t';
        assert(crate::text::is_ascii_digit(s[j]));
    }
    if s == "-"@ {
        assert(crate::text::is_ascii_digit(s[0]));
    }
}

pub proof fn lemma_split_head(x: Seq<char>, y: Seq<char>, c: char, n: nat)
    requires
        !x.contains(c),
        n >= 2,
    ensures
        split_n(x + seq![c] + y, c, n) == seq![x] + split_n(y, c, (n - 1) as nat),
{
    let s = x + seq![c] + y;
    assert forall|j: int| 0 <= j < x.len() implies #[trigger] s[j] != c by {
        assert(s[j] == x[j]);
    }
    crate::text::lemma_find_char(s, c, x.len() as int);
    assert(s.take(x.len() as int) == x);
    assert(s.skip(x.len() as int + 1) == y);
}

proof fn lemma_line_fields(e: EntryView)
    requires
        !e.level.contains('\t'),
        !e.event.contains('\t'),
        !operation_text(e.operation_id).contains('\t'),
        !decimal(e.timestamp_ms as nat).contains('\t'),
        !decimal(e.sequence as nat).contains('\t'),
    ensures
        split_n(line_text(e), '\t', 6) == seq![
            decimal(e.timestamp_ms as nat),
            decimal(e.sequence as nat),
            e.level,
            operation_text(e.operation_id),
            e.event,
            detail_text(e.detail),
        ],
{
    reveal_strlit("\t");
    let t = seq!['\t'];
    let ts = decimal(e.timestamp_ms as nat);
    let sq = decimal(e.sequence as nat);
    let op = operation_text(e.operation_id);
    let det = detail_text(e.detail);
    let r4 = e.event + t + det;
    let r3 = op + t + r4;
    let r2 = e.level + t + r3;
    let r1 = sq + t + r2;
    assert(line_text(e) =~= ts + t + r1);
    lemma_split_head(ts, r1, '\t', 6);
    lemma_split_head(sq, r2, '\t', 5);
    lemma_split_head(e.level, r3, '\t', 4);
    lemma_split_head(op, r4, '\t', 3);
    lemma_split_head(e.event, det, '\t', 2);
    assert(split_n(det, '\t', 1) == seq![det]);
    assert(split_n(line_text(e), '\t', 6) =~= seq![ts, sq, e.level, op, e.event, det]);
}

/// A durable line reads back as the entry it was written from, provided the level and event
/// hold no tab and the detail is not the absent-detail marker `-`.
pub proof fn lemma_line_round_trip(e: EntryView)
    requires
        !e.level.contains('\t'),
        !e.event.contains('\t'),
        e.detail matches Some(d) ==> d != "-"@,
    ensures
        parsed_line(line_text(e)) == Some(e),
{
    reveal_strlit("-");
    let op = operation_text(e.operation_id);
    lemma_decimal_parses(e.timestamp_ms as nat, u128::MAX as nat);
    lemma_decimal_parses(e.sequence as nat, u64::MAX as nat);
    if let Some(o) = e.operation_id {
        lemma_decimal_parses(o as nat, u64::MAX as nat);
        assert(op != "-"@);
    } else {
        assert(op == seq!['-']);
        assert(!op.contains('\t')) by {
            if op.contains('\t') {
                let j = choose|j: int| 0 <= j < op.len() && op[j] == '\t';
            }
        }
    }
    lemma_line_fields(e);
}


/// `n + 1`, saturating at the largest value.
pub open spec fn saturating_inc(n: u64) -> u64 {
    if n == u64::MAX {
        n
    } else {
        (n + 1) as u64
    }
}

/// `n + 1`, wrapping around at the largest value, as an atomic counter advances.
pub open spec fn wrapping_inc(n: u64) -> u64 {
    if n == u64::MAX {
        0
    } else {
        (n + 1) as u64
    }
}

pub open spec fn max_u64(a: u64, b: u64) -> u64 {
    if a >= b {
        a
    } else {
        b
    }
}

/// The state of the user-interface log: its recent entries and the next sequence and
/// operation numbers.
pub struct LogState {
    pub entries: Seq<EntryView>,
    pub next_sequence: u64,
    pub next_operation_id: u64,
}

/// The state after reading one line of the durable log: a line that parses joins the entries,
/// and the counters move past its sequence and operation numbers.
pub open spec fn restore_line(st: LogState, line: Seq<char>) -> LogState {
    match parsed_line(line) {
        None => st,
        Some(e) => LogState {
            entries: bounded_push(st.entries, e),
            next_sequence: max_u64(st.next_sequence, saturating_inc(e.sequence)),
            next_operation_id: match e.operation_id {
                Some(o) => max_u64(st.next_operation_id, saturating_inc(o)),
                None => st.next_operation_id,
            },
        },
    }
}

pub open spec fn restore_lines(st: LogState, ls: Seq<Seq<char>>) -> LogState
    decreases ls.len(),
{
    if ls.len() == 0 {
        st
    } else {
        restore_line(restore_lines(st, ls.drop_last()), ls.last())
    }
}

/// The entry that `record` adds.
pub open spec fn recorded_entry(
    sequence: u64,
    timestamp_ms: u128,
    level: LogLevel,
    operation_id: Option<u64>,
    event: Seq<char>,
    detail: Option<Seq<char>>,
) -> EntryView {
    EntryView {
        sequence,
        timestamp_ms,
        level: log_level_text(level),
        operation_id,
        event: sanitized_fragment(event),
        detail: match detail {
            Some(d) => Some(sanitized_detail(d)),
            None => None,
        },
    }
}

/// The user-interface log: at most `UI_LOG_CAPACITY` recent entries, each event fragment and
/// detail sanitized as it is recorded.
pub struct Diagnostics {
    logs: VecDeque<UiLogEntry>,
    next_sequence: u64,
    next_operation_id: u64,
}

impl Diagnostics {
    #[verifier::type_invariant]
    spec fn bounded(self) -> bool {
        self.logs@.len() <= UI_LOG_CAPACITY
    }

    pub closed spec fn state(&self) -> LogState {
        LogState {
            entries: entry_views(self.logs@),
            next_sequence: self.next_sequence,
            next_operation_id: self.next_operation_id,
        }
    }

    /// An empty log whose first sequence and operation numbers are 1.
    pub fn new() -> (r: Self)
        ensures
            r.state().entries.len() == 0,
            r.state().next_sequence == 1,
            r.state().next_operation_id == 1,
    {
        let r = Diagnostics { logs: VecDeque::new(), next_sequence: 1, next_operation_id: 1 };
        assert(entry_views(r.logs@) =~= Seq::<EntryView>::empty());
        r
    }

    /// The log never holds more than its capacity.
    pub fn len(&self) -> (r: usize)
        ensures
            r == self.state().entries.len(),
            r <= UI_LOG_CAPACITY,
    {
        proof {
            use_type_invariant(self);
        }
        self.logs.len()
    }

    fn push_entry(&mut self, entry: UiLogEntry)
        ensures
            final(self).state() == (LogState {
                entries: bounded_push(old(self).state().entries, entry@),
                ..old(self).state()
            }),
    {
        proof {
            use_type_invariant(&*self);
        }
        let mut logs = VecDeque::new();
        std::mem::swap(&mut logs, &mut self.logs);
        push_bounded(&mut logs, entry);
        std::mem::swap(&mut logs, &mut self.logs);
    }

    /// Restores the entries of a durable log, line by line, as the log is opened.
    pub fn restore(&mut self, contents: &str)
        ensures
            final(self).state() == restore_lines(old(self).state(), crate::text::lines(contents@)),
    {
        let v = chars_of(contents);
        let ls = crate::text::lines_of(v.as_slice());
        let ghost all = views(ls@);
        let ghost start = self.state();
        let mut i: usize = 0;
        while i < ls.len()
            invariant
                i <= ls.len(),
                all == views(ls@),
                self.state() == restore_lines(start, all.take(i as int)),
            decreases ls.len() - i,
        {
            proof {
                use_type_invariant(&*self);
            }
            assert(all.take(i + 1).drop_last() == all.take(i as int));
            assert(all.take(i + 1).last() == ls@[i as int]@);
            let line = string_of(ls[i].as_slice());
            if let Some(entry) = parse_line(line.as_str()) {
                let sequence_next = if entry.sequence == u64::MAX {
                    entry.sequence
                } else {
                    entry.sequence + 1
                };
                if sequence_next > self.next_sequence {
                    self.next_sequence = sequence_next;
                }
                if let Some(operation_id) = entry.operation_id {
                    let operation_next = if operation_id == u64::MAX {
                        operation_id
                    } else {
                        operation_id + 1
                    };
                    if operation_next > self.next_operation_id {
                        self.next_operation_id = operation_next;
                    }
                }
                self.push_entry(entry);
            }
            i = i + 1;
            assert(self.state() =~= restore_lines(start, all.take(i as int)));
        }
        assert(all.take(ls.len() as int) == all);
    }

    /// Records one entry with the given timestamp and returns it.
    pub fn record(
        &mut self,
        level: LogLevel,
        operation_id: Option<u64>,
        event: &str,
        detail: Option<&str>,
        timestamp_ms: u128,
    ) -> (r: UiLogEntry)
        ensures
            r@ == recorded_entry(
                old(self).state().next_sequence,
                timestamp_ms,
                level,
                operation_id,
                event@,
                match detail {
                    Some(d) => Some(d@),
                    None => None,
                },
            ),
            final(self).state() == (LogState {
                entries: bounded_push(old(self).state().entries, r@),
                next_sequence: wrapping_inc(old(self).state().next_sequence),
                next_operation_id: old(self).state().next_operation_id,
            }),
    {
        proof {
            use_type_invariant(&*self);
        }
        let sequence = self.next_sequence;
        self.next_sequence = if sequence == u64::MAX {
            0
        } else {
            sequence + 1
        };
        let entry = UiLogEntry {
            sequence,
            timestamp_ms,
            level: level.as_str().to_owned(),
            operation_id,
            event: sanitize_fragment(event),
            detail: match detail {
                Some(value) => Some(sanitize_detail(value)),
                None => None,
            },
        };
        let result = entry.clone();
        self.push_entry(entry);
        result
    }

    /// Traces a user-interface event at debug level.
    pub fn trace_ui(&mut self, event: UiEvent, timestamp_ms: u128) -> (r: UiLogEntry)
        ensures
            r@ == recorded_entry(
                old(self).state().next_sequence,
                timestamp_ms,
                LogLevel::Debug,
                None,
                ui_event_text(event),
                None,
            ),
            final(self).state().entries == bounded_push(old(self).state().entries, r@),
            final(self).state().next_sequence == wrapping_inc(old(self).state().next_sequence),
            final(self).state().next_operation_id == old(self).state().next_operation_id,
    {
        self.record(LogLevel::Debug, None, event.as_str(), None, timestamp_ms)
    }

    /// Starts one user-visible operation: records it at info level and returns its correlation
    /// number with the recorded entry.
    pub fn begin_operation(&mut self, event: &str, detail: &str, timestamp_ms: u128) -> (r: (
        u64,
        UiLogEntry,
    ))
        ensures
            r.0 == old(self).state().next_operation_id,
            r.1@ == recorded_entry(
                old(self).state().next_sequence,
                timestamp_ms,
                LogLevel::Info,
                Some(r.0),
                event@,
                Some(detail@),
            ),
            final(self).state().entries == bounded_push(old(self).state().entries, r.1@),
            final(self).state().next_sequence == wrapping_inc(old(self).state().next_sequence),
            final(self).state().next_operation_id == wrapping_inc(
                old(self).state().next_operation_id,
            ),
    {
        proof {
            use_type_invariant(&*self);
        }
        let operation_id = self.next_operation_id;
        self.next_operation_id = if operation_id == u64::MAX {
            0
        } else {
            operation_id + 1
        };
        let entry = self.record(LogLevel::Info, Some(operation_id), event, Some(detail), timestamp_ms);
        (operation_id, entry)
    }

    /// Records a step of an operation.
    pub fn record_operation(
        &mut self,
        operation_id: u64,
        level: LogLevel,
        event: &str,
        detail: &str,
        timestamp_ms: u128,
    ) -> (r: UiLogEntry)
        ensures
            r@ == recorded_entry(
                old(self).state().next_sequence,
                timestamp_ms,
                level,
                Some(operation_id),
                event@,
                Some(detail@),
            ),
            final(self).state().entries == bounded_push(old(self).state().entries, r@),
            final(self).state().next_sequence == wrapping_inc(old(self).state().next_sequence),
            final(self).state().next_operation_id == old(self).state().next_operation_id,
    {
        self.record(level, Some(operation_id), event, Some(detail), timestamp_ms)
    }

    /// Records an event that belongs to no operation.
    pub fn record_event(&mut self, level: LogLevel, event: &str, detail: &str, timestamp_ms: u128) -> (r:
        UiLogEntry)
        ensures
            r@ == recorded_entry(
                old(self).state().next_sequence,
                timestamp_ms,
                level,
                None,
                event@,
                Some(detail@),
            ),
            final(self).state().entries == bounded_push(old(self).state().entries, r@),
            final(self).state().next_sequence == wrapping_inc(old(self).state().next_sequence),
            final(self).state().next_operation_id == old(self).state().next_operation_id,
    {
        self.record(level, None, event, Some(detail), timestamp_ms)
    }

    /// The recent entries, oldest first.
    pub fn recent_ui_logs(&self) -> (r: Vec<UiLogEntry>)
        ensures
            entry_views(r@) == self.state().entries,
    {
        let mut out: Vec<UiLogEntry> = Vec::new();
        let mut i: usize = 0;
        while i < self.logs.len()
            invariant
                i <= self.logs@.len(),
                entry_views(out@) == entry_views(self.logs@).take(i as int),
            decreases self.logs@.len() - i,
        {
            let ghost before = entry_views(out@);
            let e = self.logs[i].clone();
            assert(e@ == self.logs@[i as int]@);
            out.push(e);
            assert(entry_views(out@) =~= before.push(e@));
            i = i + 1;
            assert(entry_views(out@) =~= entry_views(self.logs@).take(i as int));
        }
        assert(entry_views(self.logs@).take(self.logs@.len() as int) =~= entry_views(self.logs@));
        out
    }
}

/// A text that a redacted detail never holds, in any ASCII case.
pub open spec fn is_redacted_pattern(p: Seq<char>) -> bool {
    p == "http://"@ || p == "https://"@ || p == "vless://"@ || p == "token="@
}

/// Free of the redacted patterns in any ASCII case, and of line breaks and tabs.
pub open spec fn is_clean_detail(t: Seq<char>) -> bool {
    &&& forall|p: Seq<char>| is_redacted_pattern(p) ==> !contains_seq(ascii_lower(t), p)
    &&& forall|i: int| 0 <= i < t.len() ==> #[trigger] t[i] != '\n' && t[i] != '\r' && t[i] != '\t'
}

proof fn lemma_pattern_shape(p: Seq<char>)
    requires
        is_redacted_pattern(p),
    ensures
        p.len() > 0,
        lacks_char(p, ' '),
        lacks_char(p, '\u{2026}'),
        exists|k: int| 0 <= k < p.len() && (p[k] == ':' || p[k] == '='),
{
    reveal_strlit("http://");
    reveal_strlit("https://");
    reveal_strlit("vless://");
    reveal_strlit("token=");
    if p == "token="@ {
        assert(p[5] == '=');
    } else {
        assert(p[4] == ':' || p[5] == ':');
    }
}

/// A marker without `:` and `=` holds none of the redacted patterns.
proof fn lemma_marker_clean(m: Seq<char>)
    requires
        lacks_char(m, ':'),
        lacks_char(m, '='),
        forall|i: int| 0 <= i < m.len() ==> #[trigger] to_ascii_lower(m[i]) == m[i],
        forall|i: int| 0 <= i < m.len() ==> !is_whitespace(#[trigger] m[i]),
    ensures
        is_clean_detail(m),
{
    assert(ascii_lower(m) =~= m);
    assert forall|p: Seq<char>| is_redacted_pattern(p) implies !contains_seq(ascii_lower(m), p) by {
        lemma_pattern_shape(p);
        if contains_seq(m, p) {
            let j = choose|j: int| occurs_at(m, p, j);
            let k = choose|k: int| 0 <= k < p.len() && (p[k] == ':' || p[k] == '=');
            assert(m.subrange(j, j + p.len()) == p);
            assert(m.subrange(j, j + p.len())[k] == m[j + k]);
        }
    }
}

proof fn lemma_markers_clean()
    ensures
        is_clean_detail("<redacted-url>"@),
        is_clean_detail("<redacted-token>"@),
{
    reveal_strlit("<redacted-url>");
    reveal_strlit("<redacted-token>");
    lemma_marker_clean("<redacted-url>"@);
    lemma_marker_clean("<redacted-token>"@);
}

proof fn lemma_ws_end_prefix(s: Seq<char>)
    ensures
        forall|j: int| 0 <= j < ws_end(s) ==> !is_whitespace(#[trigger] s[j]),
    decreases s.len(),
{
    lemma_ws_end_bound(s);
    if s.len() > 0 && !is_whitespace(s[0]) {
        let t = s.drop_first();
        lemma_ws_end_prefix(t);
        assert forall|j: int| 0 <= j < ws_end(s) implies !is_whitespace(#[trigger] s[j]) by {
            if j > 0 {
                assert(s[j] == t[j - 1]);
            }
        }
    }
}

proof fn lemma_words_have_no_white_space(s: Seq<char>)
    ensures
        forall|i: int, j: int|
            0 <= i < words(s).len() && 0 <= j < words(s)[i].len() ==> !is_whitespace(
                #[trigger] words(s)[i][j],
            ),
    decreases s.len(),
{
    if s.len() > 0 {
        if is_whitespace(s[0]) {
            lemma_words_have_no_white_space(s.drop_first());
            assert(words(s) == words(s.drop_first()));
        } else {
            lemma_ws_end_bound(s);
            lemma_ws_end_prefix(s);
            let e = ws_end(s) as int;
            let rest = s.skip(e);
            lemma_words_have_no_white_space(rest);
            let w = words(s);
            assert(w == seq![s.take(e)] + words(rest));
            assert forall|i: int, j: int|
                0 <= i < w.len() && 0 <= j < w[i].len() implies !is_whitespace(#[trigger] w[i][j]) by {
                if i == 0 {
                    assert(w[0][j] == s[j]);
                } else {
                    assert(w[i] == words(rest)[i - 1]);
                }
            }
        }
    }
}

proof fn lemma_redacted_word_clean(w: Seq<char>)
    requires
        forall|j: int| 0 <= j < w.len() ==> !is_whitespace(#[trigger] w[j]),
    ensures
        is_clean_detail(redact_word(w)),
        forall|j: int| 0 <= j < redact_word(w).len() ==> !is_whitespace(
            #[trigger] redact_word(w)[j],
        ),
{
    lemma_markers_clean();
    reveal_strlit("<redacted-url>");
    reveal_strlit("<redacted-token>");
    reveal_strlit("http://");
    reveal_strlit("https://");
    reveal_strlit("vless://");
    reveal_strlit("token=");
    if !has_url_scheme(ascii_lower(w)) && !contains_seq(ascii_lower(w), "token="@) {
        assert forall|j: int| 0 <= j < w.len() implies #[trigger] w[j] != '\n' && w[j] != '\r'
            && w[j] != '\t' by {
            assert(!is_whitespace(w[j]));
        }
    }
}

proof fn lemma_join_clean(ws: Seq<Seq<char>>)
    requires
        forall|i: int| 0 <= i < ws.len() ==> is_clean_detail(#[trigger] ws[i]),
    ensures
        is_clean_detail(join(ws, " "@)),
    decreases ws.len(),
{
    reveal_strlit(" ");
    if ws.len() == 0 {
        let e = join(ws, " "@);
        assert(e =~= Seq::<char>::empty());
        assert(ascii_lower(e) =~= Seq::<char>::empty());
        assert forall|p: Seq<char>| is_redacted_pattern(p) implies !contains_seq(ascii_lower(e), p) by {
            lemma_pattern_shape(p);
        }
    } else if ws.len() == 1 {
        assert(join(ws, " "@) == ws[0]);
    } else {
        let x = join(ws.drop_last(), " "@);
        let y = ws.last();
        lemma_join_clean(ws.drop_last());
        assert(" "@ == seq![' ']);
        let t = x + seq![' '] + y;
        assert(join(ws, " "@) == t);
        assert(ascii_lower(t) =~= ascii_lower(x) + seq![' '] + ascii_lower(y));
        assert forall|p: Seq<char>| is_redacted_pattern(p) implies !contains_seq(ascii_lower(t), p) by {
            lemma_pattern_shape(p);
            lemma_joined_lacks_seq(ascii_lower(x), ' ', ascii_lower(y), p);
        }
        assert forall|i: int| 0 <= i < t.len() implies #[trigger] t[i] != '\n' && t[i] != '\r'
            && t[i] != '\t' by {
            if i < x.len() {
                assert(t[i] == x[i]);
            } else if i > x.len() {
                assert(t[i] == y[i - x.len() - 1]);
            }
        }
    }
}

/// A sanitized detail never holds a line break, a tab, `http://`, `https://`, `vless://` or
/// `token=`, in any ASCII case.
pub proof fn lemma_detail_is_redacted(s: Seq<char>)
    ensures
        is_clean_detail(sanitized_detail(s)),
{
    let ws = words(s);
    lemma_words_have_no_white_space(s);
    let rs = redacted_words(ws);
    assert forall|i: int| 0 <= i < rs.len() implies is_clean_detail(#[trigger] rs[i]) by {
        assert forall|j: int| 0 <= j < ws[i].len() implies !is_whitespace(#[trigger] ws[i][j]) by {}
        lemma_redacted_word_clean(ws[i]);
    }
    lemma_join_clean(rs);
    let joined = join(rs, " "@);
    if joined.len() > MAX_DETAIL_CHARS {
        let cut = joined.take(MAX_DETAIL_CHARS as int);
        let out = cut.push('\u{2026}');
        assert(ascii_lower(out) =~= ascii_lower(joined).take(MAX_DETAIL_CHARS as int).push(
            '\u{2026}',
        ));
        assert forall|p: Seq<char>| is_redacted_pattern(p) implies !contains_seq(ascii_lower(out), p) by {
            lemma_pattern_shape(p);
            lemma_prefix_lacks_seq(ascii_lower(joined), MAX_DETAIL_CHARS as int, p);
            lemma_push_lacks_seq(
                ascii_lower(joined).take(MAX_DETAIL_CHARS as int),
                '\u{2026}',
                p,
            );
        }
        assert forall|i: int| 0 <= i < out.len() implies #[trigger] out[i] != '\n' && out[i]
            != '\r' && out[i] != '\t' by {
            if i < MAX_DETAIL_CHARS {
                assert(out[i] == joined[i]);
            }
        }
    }
}


/// A logged detail holds no secret-bearing text: no `http://`, `https://`, `vless://` or
/// `token=` in any ASCII case, no line break or tab, and it is at most `MAX_DETAIL_CHARS`
/// characters long plus an ellipsis.
pub proof fn lemma_detail_holds_no_secret(s: Seq<char>)
    ensures
        !contains_seq(ascii_lower(sanitized_detail(s)), "http://"@),
        !contains_seq(ascii_lower(sanitized_detail(s)), "https://"@),
        !contains_seq(ascii_lower(sanitized_detail(s)), "vless://"@),
        !contains_seq(ascii_lower(sanitized_detail(s)), "token="@),
        !sanitized_detail(s).contains('\n'),
        !sanitized_detail(s).contains('\r'),
        sanitized_detail(s).len() <= MAX_DETAIL_CHARS + 1,
{
    lemma_detail_is_redacted(s);
    let t = sanitized_detail(s);
    assert(is_redacted_pattern("http://"@));
    assert(is_redacted_pattern("https://"@));
    assert(is_redacted_pattern("vless://"@));
    assert(is_redacted_pattern("token="@));
    if t.contains('\n') {
        let i = choose|i: int| 0 <= i < t.len() && t[i] == '\n';
        assert(t[i] != '\n');
    }
    if t.contains('\r') {
        let i = choose|i: int| 0 <= i < t.len() && t[i] == '\r';
        assert(t[i] != '\r');
    }
}

proof fn lemma_fragment_chars(s: Seq<char>)
    ensures
        forall|i: int| 0 <= i < fragment_chars(s).len() ==> is_fragment_char(
            #[trigger] fragment_chars(s)[i],
        ),
        (forall|i: int| 0 <= i < s.len() ==> is_fragment_char(#[trigger] s[i])) ==> fragment_chars(s)
            == s,
    decreases s.len(),
{
    if s.len() > 0 {
        let f = s.drop_last();
        lemma_fragment_chars(f);
        let r = fragment_chars(s);
        assert forall|i: int| 0 <= i < r.len() implies is_fragment_char(#[trigger] r[i]) by {
            if i < fragment_chars(f).len() {
                assert(r[i] == fragment_chars(f)[i]);
            }
        }
        if forall|i: int| 0 <= i < s.len() ==> is_fragment_char(#[trigger] s[i]) {
            assert(forall|i: int| 0 <= i < f.len() ==> is_fragment_char(#[trigger] f[i])) by {
                assert forall|i: int| 0 <= i < f.len() implies is_fragment_char(#[trigger] f[i]) by {
                    assert(f[i] == s[i]);
                }
            }
            assert(is_fragment_char(s[s.len() - 1]));
            assert(f.push(s.last()) =~= s);
        }
    } else {
        assert(fragment_chars(s) =~= s);
    }
}

/// A logged event name holds only ASCII letters, digits, `.`, `_` and `-`, at most
/// `MAX_FRAGMENT_CHARS` of them; a name that already does is logged unchanged.
pub proof fn lemma_fragment_is_clean(s: Seq<char>)
    ensures
        sanitized_fragment(s).len() <= MAX_FRAGMENT_CHARS,
        forall|i: int|
            0 <= i < sanitized_fragment(s).len() ==> {
                let c = #[trigger] sanitized_fragment(s)[i];
                ||| ('a' <= c && c <= 'z')
                ||| ('A' <= c && c <= 'Z')
                ||| ('0' <= c && c <= '9')
                ||| c == '.'
                ||| c == '_'
                ||| c == '-'
            },
        (forall|i: int| 0 <= i < s.len() ==> is_fragment_char(#[trigger] s[i])) && s.len()
            <= MAX_FRAGMENT_CHARS ==> sanitized_fragment(s) == s,
{
    lemma_fragment_chars(s);
    let f = fragment_chars(s);
    let t = sanitized_fragment(s);
    assert forall|i: int| 0 <= i < t.len() implies is_fragment_char(#[trigger] t[i]) by {
        assert(t[i] == f[i]);
    }
}

} // verus!
