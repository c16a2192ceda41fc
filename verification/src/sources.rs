//! Remote sources and the running profile: where the profile came from, how often a source is
//! refreshed, the store and preview errors, and how imported rules join a profile.
use vstd::prelude::*;

use crate::profile::{as_unit_result, profile_error, Name, PolicyRef, Profile, ProfileError, Rule};
use crate::diagnostics::lemma_decimal_digits;
use crate::text::{chars_equal, chars_of, decimal, digits_value};

verus! {

/// Where the application's controller connection stands.
#[derive(Clone, Debug, PartialEq, Eq)]
pub enum ControllerState {
    Demo,
    Connecting { endpoint: String },
    Connected {
        endpoint: String,
        version: String,
        active_connections: usize,
        download_total: u64,
        upload_total: u64,
    },
    Failed { endpoint: String, message: String },
}

impl ControllerState {
    /// The controller endpoint, except in the demo.
    pub fn endpoint(&self) -> (r: Option<&str>)
        ensures
            match *self {
                ControllerState::Demo => r is None,
                ControllerState::Connecting { endpoint } => r matches Some(e) && e@ == endpoint@,
                ControllerState::Connected { endpoint, .. } => r matches Some(e) && e@
                    == endpoint@,
                ControllerState::Failed { endpoint, .. } => r matches Some(e) && e@ == endpoint@,
            },
    {
        match self {
            ControllerState::Demo => None,
            ControllerState::Connecting { endpoint } => Some(endpoint.as_str()),
            ControllerState::Connected { endpoint, .. } => Some(endpoint.as_str()),
            ControllerState::Failed { endpoint, .. } => Some(endpoint.as_str()),
        }
    }
}

/// Where the running profile came from.
#[derive(Clone, Copy, Debug, PartialEq, Eq, Structural)]
pub enum RuntimeProfileSource {
    ExternalController,
    ExistingConfig,
    PrivateSubscription,
    SavedSources,
    Invalid,
}

impl RuntimeProfileSource {
    pub fn label(self) -> (r: &'static str)
        ensures
            r@ == match self {
                RuntimeProfileSource::ExternalController => "外部控制器"@,
                RuntimeProfileSource::ExistingConfig => "已有 Mihomo 配置"@,
                RuntimeProfileSource::PrivateSubscription => "私有 HTTPS 订阅"@,
                RuntimeProfileSource::SavedSources => "Relay 已保存来源"@,
                RuntimeProfileSource::Invalid => "配置不可用"@,
            },
    {
        match self {
            RuntimeProfileSource::ExternalController => "外部控制器",
            RuntimeProfileSource::ExistingConfig => "已有 Mihomo 配置",
            RuntimeProfileSource::PrivateSubscription => "私有 HTTPS 订阅",
            RuntimeProfileSource::SavedSources => "Relay 已保存来源",
            RuntimeProfileSource::Invalid => "配置不可用",
        }
    }

    pub fn detail(self) -> (r: &'static str)
        ensures
            r@ == match self {
                RuntimeProfileSource::ExternalController => "外部控制器保持只读"@,
                RuntimeProfileSource::ExistingConfig => "使用已有 Mihomo 配置"@,
                RuntimeProfileSource::PrivateSubscription => "链接已隐藏 · 已写入 Relay 托管配置"@,
                RuntimeProfileSource::SavedSources => "从本机私有来源编译"@,
                RuntimeProfileSource::Invalid => "请检查本机启动参数"@,
            },
    {
        match self {
            RuntimeProfileSource::ExternalController => "外部控制器保持只读",
            RuntimeProfileSource::ExistingConfig => "使用已有 Mihomo 配置",
            RuntimeProfileSource::PrivateSubscription => "链接已隐藏 · 已写入 Relay 托管配置",
            RuntimeProfileSource::SavedSources => "从本机私有来源编译",
            RuntimeProfileSource::Invalid => "请检查本机启动参数",
        }
    }
}

/// How often a remote source is refreshed.
#[derive(Clone, Copy, Debug, PartialEq, Eq, Structural)]
pub enum RemoteSourceRefreshInterval {
    Manual,
    Hourly,
    SixHours,
    TwelveHours,
    Daily,
}

impl Default for RemoteSourceRefreshInterval {
    fn default() -> (r: Self)
        ensures
            r == RemoteSourceRefreshInterval::Manual,
    {
        RemoteSourceRefreshInterval::Manual
    }
}

/// The stored key of an interval.
pub open spec fn interval_key(i: RemoteSourceRefreshInterval) -> Seq<char> {
    match i {
        RemoteSourceRefreshInterval::Manual => "manual"@,
        RemoteSourceRefreshInterval::Hourly => "1h"@,
        RemoteSourceRefreshInterval::SixHours => "6h"@,
        RemoteSourceRefreshInterval::TwelveHours => "12h"@,
        RemoteSourceRefreshInterval::Daily => "24h"@,
    }
}

/// The interval of a stored key.
pub open spec fn interval_for_key(k: Seq<char>) -> Option<RemoteSourceRefreshInterval> {
    if k == "manual"@ {
        Some(RemoteSourceRefreshInterval::Manual)
    } else if k == "1h"@ {
        Some(RemoteSourceRefreshInterval::Hourly)
    } else if k == "6h"@ {
        Some(RemoteSourceRefreshInterval::SixHours)
    } else if k == "12h"@ {
        Some(RemoteSourceRefreshInterval::TwelveHours)
    } else if k == "24h"@ {
        Some(RemoteSourceRefreshInterval::Daily)
    } else {
        None
    }
}

pub open spec fn interval_seconds(i: RemoteSourceRefreshInterval) -> Option<u64> {
    match i {
        RemoteSourceRefreshInterval::Manual => None,
        RemoteSourceRefreshInterval::Hourly => Some(3600),
        RemoteSourceRefreshInterval::SixHours => Some(21600),
        RemoteSourceRefreshInterval::TwelveHours => Some(43200),
        RemoteSourceRefreshInterval::Daily => Some(86400),
    }
}

/// The interval after `i` in the settings cycle.
pub open spec fn next_interval(i: RemoteSourceRefreshInterval) -> RemoteSourceRefreshInterval {
    match i {
        RemoteSourceRefreshInterval::Manual => RemoteSourceRefreshInterval::Hourly,
        RemoteSourceRefreshInterval::Hourly => RemoteSourceRefreshInterval::SixHours,
        RemoteSourceRefreshInterval::SixHours => RemoteSourceRefreshInterval::TwelveHours,
        RemoteSourceRefreshInterval::TwelveHours => RemoteSourceRefreshInterval::Daily,
        RemoteSourceRefreshInterval::Daily => RemoteSourceRefreshInterval::Manual,
    }
}

/// A source is due when it refreshes on a schedule and either never succeeded or its interval
/// has passed since the last success.
pub open spec fn refresh_due(i: RemoteSourceRefreshInterval, last: u64, now: u64) -> bool {
    match interval_seconds(i) {
        None => false,
        Some(secs) => last == 0 || (if now >= last {
            now - last
        } else {
            0
        }) >= secs,
    }
}

fn key_is(v: &[char], literal: &str) -> (r: bool)
    ensures
        r == (v@ == literal@),
{
    let l = chars_of(literal);
    chars_equal(v, l.as_slice())
}

impl RemoteSourceRefreshInterval {
    pub fn key(self) -> (r: &'static str)
        ensures
            r@ == interval_key(self),
    {
        match self {
            RemoteSourceRefreshInterval::Manual => "manual",
            RemoteSourceRefreshInterval::Hourly => "1h",
            RemoteSourceRefreshInterval::SixHours => "6h",
            RemoteSourceRefreshInterval::TwelveHours => "12h",
            RemoteSourceRefreshInterval::Daily => "24h",
        }
    }

    pub fn parse_key(input: &str) -> (r: Option<Self>)
        ensures
            r == interval_for_key(input@),
    {
        let v = chars_of(input);
        if key_is(v.as_slice(), "manual") {
            Some(RemoteSourceRefreshInterval::Manual)
        } else if key_is(v.as_slice(), "1h") {
            Some(RemoteSourceRefreshInterval::Hourly)
        } else if key_is(v.as_slice(), "6h") {
            Some(RemoteSourceRefreshInterval::SixHours)
        } else if key_is(v.as_slice(), "12h") {
            Some(RemoteSourceRefreshInterval::TwelveHours)
        } else if key_is(v.as_slice(), "24h") {
            Some(RemoteSourceRefreshInterval::Daily)
        } else {
            None
        }
    }

    pub fn interval_secs(self) -> (r: Option<u64>)
        ensures
            r == interval_seconds(self),
    {
        match self {
            RemoteSourceRefreshInterval::Manual => None,
            RemoteSourceRefreshInterval::Hourly => Some(60 * 60),
            RemoteSourceRefreshInterval::SixHours => Some(6 * 60 * 60),
            RemoteSourceRefreshInterval::TwelveHours => Some(12 * 60 * 60),
            RemoteSourceRefreshInterval::Daily => Some(24 * 60 * 60),
        }
    }

    pub fn next(self) -> (r: Self)
        ensures
            r == next_interval(self),
    {
        match self {
            RemoteSourceRefreshInterval::Manual => RemoteSourceRefreshInterval::Hourly,
            RemoteSourceRefreshInterval::Hourly => RemoteSourceRefreshInterval::SixHours,
            RemoteSourceRefreshInterval::SixHours => RemoteSourceRefreshInterval::TwelveHours,
            RemoteSourceRefreshInterval::TwelveHours => RemoteSourceRefreshInterval::Daily,
            RemoteSourceRefreshInterval::Daily => RemoteSourceRefreshInterval::Manual,
        }
    }

    pub fn is_due(self, last_successful_update_unix_secs: u64, now_unix_secs: u64) -> (r: bool)
        ensures
            r == refresh_due(self, last_successful_update_unix_secs, now_unix_secs),
    {
        let interval_secs = match self.interval_secs() {
            Some(secs) => secs,
            None => return false,
        };
        let elapsed = if now_unix_secs >= last_successful_update_unix_secs {
            now_unix_secs - last_successful_update_unix_secs
        } else {
            0
        };
        last_successful_update_unix_secs == 0 || elapsed >= interval_secs
    }
}

/// Every interval's key reads back as that interval.
pub proof fn lemma_interval_key_round_trip(i: RemoteSourceRefreshInterval)
    ensures
        interval_for_key(interval_key(i)) == Some(i),
{
    reveal_strlit("manual");
    reveal_strlit("1h");
    reveal_strlit("6h");
    reveal_strlit("12h");
    reveal_strlit("24h");
    assert("manual"@.len() != "1h"@.len());
    assert("manual"@.len() != "12h"@.len());
    assert("1h"@[0] != "6h"@[0]);
    assert("12h"@.len() != "1h"@.len());
    assert("12h"@[0] != "24h"@[0]);
    assert("6h"@.len() != "12h"@.len());
}

/// A scheduled interval lasts as many hours as its stored key names: the key of one that lasts
/// `s` seconds is `s / 3600` in decimal followed by `h`, `s` being a whole number of hours, and
/// only the manual interval, keyed `manual`, has no schedule. So a source on an interval keyed
/// `<hours>h` that last succeeded at `last` is due at `now` exactly when `hours` hours have
/// passed.
pub proof fn lemma_interval_lasts_its_key_hours(
    i: RemoteSourceRefreshInterval,
    hours: nat,
    last: u64,
    now: u64,
)
    ensures
        interval_seconds(i) is None <==> interval_key(i) == "manual"@,
        interval_seconds(i) matches Some(s) ==> s % 3600 == 0 && interval_key(i) == decimal(
            (s / 3600) as nat,
        ) + "h"@,
        interval_key(i) == decimal(hours) + "h"@ && 0 < last <= now ==> (refresh_due(
            i,
            last,
            now,
        ) <==> now - last >= hours * 3600),
{
    reveal_strlit("manual");
    reveal_strlit("1h");
    reveal_strlit("6h");
    reveal_strlit("12h");
    reveal_strlit("24h");
    reveal_strlit("h");
    assert(decimal(1) + "h"@ =~= "1h"@);
    assert(decimal(6) + "h"@ =~= "6h"@);
    assert(decimal(1) =~= seq!['1']);
    assert(decimal(2) =~= seq!['2']);
    assert(decimal(12) =~= seq!['1', '2']);
    assert(decimal(24) =~= seq!['2', '4']);
    assert(decimal(12) + "h"@ =~= "12h"@);
    assert(decimal(24) + "h"@ =~= "24h"@);
    assert("manual"@.len() != "1h"@.len());
    assert("manual"@.len() != "12h"@.len());
    match interval_seconds(i) {
        Some(s) => {
            if interval_key(i) == decimal(hours) + "h"@ {
                let k = interval_key(i);
                assert(decimal(hours) =~= k.drop_last());
                assert(decimal((s / 3600) as nat) =~= k.drop_last());
                lemma_decimal_digits(hours);
                lemma_decimal_digits((s / 3600) as nat);
                assert(hours == s / 3600);
            }
        },
        None => {
            if interval_key(i) == decimal(hours) + "h"@ {
                lemma_decimal_digits(hours);
                let k = interval_key(i);
                assert(k.last() == 'h');
            }
        },
    }
}

/// Stepping through the intervals returns to the start after five steps, visiting each once.
pub proof fn lemma_interval_cycle(i: RemoteSourceRefreshInterval)
    ensures
        next_interval(next_interval(next_interval(next_interval(next_interval(i))))) == i,
        next_interval(i) != i,
{
}

/// A manual source is never due; a scheduled one that never succeeded always is.
pub proof fn lemma_refresh_due_edges(i: RemoteSourceRefreshInterval, last: u64, now: u64)
    ensures
        i == RemoteSourceRefreshInterval::Manual ==> !refresh_due(i, last, now),
        i != RemoteSourceRefreshInterval::Manual ==> refresh_due(i, 0, now),
        interval_seconds(i) matches Some(secs) && last > 0 && now < last ==> !refresh_due(
            i,
            last,
            now,
        ),
{
}

/// Why an isolated subscription preview could not run.
#[derive(Clone, Copy, Debug, PartialEq, Eq, Structural)]
pub enum SubscriptionPreviewError {
    UnsupportedPlatform,
    BinaryUnavailable,
    InvalidSource,
    WorkspaceUnavailable,
    ProfileUnavailable,
    EngineUnavailable,
    ProviderUnavailable,
    EmptyProvider,
}

impl SubscriptionPreviewError {
    /// The user-facing message; it never quotes the subscription.
    pub fn message(self) -> (r: &'static str)
        ensures
            r@ == match self {
                SubscriptionPreviewError::UnsupportedPlatform => "当前平台尚不能启动隔离的 Mihomo 预览进程"@,
                SubscriptionPreviewError::BinaryUnavailable => "找不到 Mihomo 内核；请安装 Clash Verge Rev 或配置预览内核"@,
                SubscriptionPreviewError::InvalidSource => "订阅地址无效，请检查后重试"@,
                SubscriptionPreviewError::WorkspaceUnavailable => "无法创建私有预览空间，请检查临时目录权限"@,
                SubscriptionPreviewError::ProfileUnavailable => "无法生成安全的订阅预览配置"@,
                SubscriptionPreviewError::EngineUnavailable => "Mihomo 预览进程启动失败"@,
                SubscriptionPreviewError::ProviderUnavailable => "Mihomo 无法下载或解析这份订阅，请检查网络和订阅状态"@,
                SubscriptionPreviewError::EmptyProvider => "订阅可以访问，但没有解析出任何代理节点"@,
            },
    {
        match self {
            SubscriptionPreviewError::UnsupportedPlatform => "当前平台尚不能启动隔离的 Mihomo 预览进程",
            SubscriptionPreviewError::BinaryUnavailable => {
                "找不到 Mihomo 内核；请安装 Clash Verge Rev 或配置预览内核"
            },
            SubscriptionPreviewError::InvalidSource => "订阅地址无效，请检查后重试",
            SubscriptionPreviewError::WorkspaceUnavailable => "无法创建私有预览空间，请检查临时目录权限",
            SubscriptionPreviewError::ProfileUnavailable => "无法生成安全的订阅预览配置",
            SubscriptionPreviewError::EngineUnavailable => "Mihomo 预览进程启动失败",
            SubscriptionPreviewError::ProviderUnavailable => {
                "Mihomo 无法下载或解析这份订阅，请检查网络和订阅状态"
            },
            SubscriptionPreviewError::EmptyProvider => "订阅可以访问，但没有解析出任何代理节点",
        }
    }
}

/// Why a saved source could not be stored or read.
#[derive(Clone, Copy, Debug, PartialEq, Eq, Structural)]
pub enum SubscriptionStoreError {
    DataDirectoryUnavailable,
    InvalidSource,
    StoreUnavailable,
    StoredSourceUnavailable,
}

impl SubscriptionStoreError {
    /// The user-facing message; it never quotes the source.
    pub fn message(self) -> (r: &'static str)
        ensures
            r@ == match self {
                SubscriptionStoreError::DataDirectoryUnavailable => "无法确定 Relay 的用户数据目录"@,
                SubscriptionStoreError::InvalidSource => "订阅地址无效，未执行导入"@,
                SubscriptionStoreError::StoreUnavailable => "无法安全保存订阅，请检查用户数据目录权限"@,
                SubscriptionStoreError::StoredSourceUnavailable => "已保存的订阅无法安全读取，需要重新导入"@,
            },
    {
        match self {
            SubscriptionStoreError::DataDirectoryUnavailable => "无法确定 Relay 的用户数据目录",
            SubscriptionStoreError::InvalidSource => "订阅地址无效，未执行导入",
            SubscriptionStoreError::StoreUnavailable => "无法安全保存订阅，请检查用户数据目录权限",
            SubscriptionStoreError::StoredSourceUnavailable => "已保存的订阅无法安全读取，需要重新导入",
        }
    }
}

/// The policy that imported QX rules route to: the built-in `DIRECT` and `REJECT`, or a group.
pub fn qx_rule_target_policy(target_policy: &Name) -> (r: PolicyRef)
    ensures
        target_policy@ == "DIRECT"@ ==> r == PolicyRef::Direct,
        target_policy@ == "REJECT"@ ==> r == PolicyRef::Reject,
        target_policy@ != "DIRECT"@ && target_policy@ != "REJECT"@ ==> (r matches PolicyRef::Group(
            n,
        ) && n@ == target_policy@),
{
    proof {
        reveal_strlit("DIRECT");
        reveal_strlit("REJECT");
        assert("DIRECT"@[0] != "REJECT"@[0]);
    }
    let v = chars_of(target_policy.as_str());
    if key_is(v.as_slice(), "DIRECT") {
        PolicyRef::Direct
    } else if key_is(v.as_slice(), "REJECT") {
        PolicyRef::Reject
    } else {
        PolicyRef::Group(target_policy.clone())
    }
}

/// A rule that ends the ordered rule list: a GEOIP rule or the final MATCH.
pub open spec fn is_terminal_rule(r: Rule) -> bool {
    r is GeoIp || r is Match
}

/// The position of the first terminal rule, or the length of the list.
pub open spec fn first_terminal(rs: Seq<Rule>) -> nat
    decreases rs.len(),
{
    if rs.len() == 0 {
        0
    } else if is_terminal_rule(rs[0]) {
        0
    } else {
        1 + first_terminal(rs.drop_first())
    }
}

proof fn lemma_first_terminal(rs: Seq<Rule>, k: int)
    requires
        0 <= k <= rs.len(),
        forall|j: int| 0 <= j < k ==> !is_terminal_rule(#[trigger] rs[j]),
        k == rs.len() || is_terminal_rule(rs[k]),
    ensures
        first_terminal(rs) == k,
    decreases k,
{
    if k > 0 {
        let t = rs.drop_first();
        assert forall|j: int| 0 <= j < k - 1 implies !is_terminal_rule(#[trigger] t[j]) by {
            assert(t[j] == rs[j + 1]);
        }
        if k - 1 < t.len() {
            assert(t[k - 1] == rs[k]);
        }
        lemma_first_terminal(t, k - 1);
    }
}

fn rule_is_terminal(rule: &Rule) -> (r: bool)
    ensures
        r == is_terminal_rule(*rule),
{
    match rule {
        Rule::GeoIp { .. } => true,
        Rule::Match { .. } => true,
        _ => false,
    }
}

/// Adds imported rules to a profile ahead of its first GEOIP or MATCH rule, then validates
/// the result. Nothing changes when there is nothing to import.
pub fn apply_imported_rules(profile: &mut Profile, imported: Vec<Rule>) -> (r: Result<
    (),
    ProfileError,
>)
    ensures
        imported@.len() == 0 ==> *final(profile) == *old(profile) && r is Ok,
        imported@.len() > 0 ==> {
            let k = first_terminal(old(profile).rules@) as int;
            &&& final(profile).rules@ == old(profile).rules@.take(k) + imported@ + old(
                profile,
            ).rules@.skip(k)
            &&& final(profile).mixed_port == old(profile).mixed_port
            &&& final(profile).log_level == old(profile).log_level
            &&& final(profile).store_selected == old(profile).store_selected
            &&& final(profile).providers == old(profile).providers
            &&& final(profile).groups == old(profile).groups
            &&& r == as_unit_result(profile_error(*final(profile)))
        },
{
    if imported.len() == 0 {
        return Ok(());
    }
    let mut k: usize = 0;
    while k < profile.rules.len() && !rule_is_terminal(&profile.rules[k])
        invariant
            k <= profile.rules.len(),
            *profile == *old(profile),
            forall|j: int| 0 <= j < k ==> !is_terminal_rule(#[trigger] profile.rules@[j]),
        decreases profile.rules.len() - k,
    {
        k = k + 1;
    }
    proof {
        lemma_first_terminal(profile.rules@, k as int);
    }
    let ghost before = profile.rules@;
    let ghost added = imported@;
    let mut tail = profile.rules.split_off(k);
    let mut imported = imported;
    profile.rules.append(&mut imported);
    profile.rules.append(&mut tail);
    assert(profile.rules@ =~= before.take(k as int) + added + before.skip(k as int));
    profile.validate()
}

/// A character that a regular expression reads as an operator.
pub open spec fn is_regex_meta(c: char) -> bool {
    c == '\\' || c == '.' || c == '+' || c == '*' || c == '?' || c == '(' || c == ')' || c == '|'
        || c == '[' || c == ']' || c == '{' || c == '}' || c == '^' || c == '$'
}

/// `s` with a backslash before every regular-expression operator.
pub open spec fn regex_escaped(s: Seq<char>) -> Seq<char>
    decreases s.len(),
{
    if s.len() == 0 {
        Seq::empty()
    } else if is_regex_meta(s.last()) {
        regex_escaped(s.drop_last()) + seq!['\\', s.last()]
    } else {
        regex_escaped(s.drop_last()).push(s.last())
    }
}

/// The text that a pattern of plain characters and backslash escapes matches: `\x` stands
/// for `x` and any other character for itself; `None` for a pattern with an operator that no
/// backslash escapes, or a trailing backslash.
pub open spec fn regex_literal(p: Seq<char>) -> Option<Seq<char>>
    decreases p.len(),
{
    if p.len() == 0 {
        Some(Seq::empty())
    } else if p[0] == '\\' {
        if p.len() < 2 {
            None
        } else {
            match regex_literal(p.skip(2)) {
                Some(rest) => Some(seq![p[1]] + rest),
                None => None,
            }
        }
    } else if is_regex_meta(p[0]) {
        None
    } else {
        match regex_literal(p.skip(1)) {
            Some(rest) => Some(seq![p[0]] + rest),
            None => None,
        }
    }
}

proof fn lemma_regex_literal_concat(x: Seq<char>, y: Seq<char>)
    requires
        regex_literal(x) is Some,
    ensures
        regex_literal(x + y) == match regex_literal(y) {
            Some(v) => Some(regex_literal(x)->Some_0 + v),
            None => None::<Seq<char>>,
        },
    decreases x.len(),
{
    if x.len() == 0 {
        assert(x + y =~= y);
        if let Some(v) = regex_literal(y) {
            assert(Seq::<char>::empty() + v =~= v);
        }
    } else if x[0] == '\\' {
        lemma_regex_literal_concat(x.skip(2), y);
        assert((x + y).skip(2) =~= x.skip(2) + y);
        assert((x + y)[1] == x[1]);
        if let Some(v) = regex_literal(y) {
            assert(seq![x[1]] + (regex_literal(x.skip(2))->Some_0 + v) =~= (seq![x[1]]
                + regex_literal(x.skip(2))->Some_0) + v);
        }
    } else {
        lemma_regex_literal_concat(x.skip(1), y);
        assert((x + y).skip(1) =~= x.skip(1) + y);
        if let Some(v) = regex_literal(y) {
            assert(seq![x[0]] + (regex_literal(x.skip(1))->Some_0 + v) =~= (seq![x[0]]
                + regex_literal(x.skip(1))->Some_0) + v);
        }
    }
}

/// An escaped name is a pattern that matches exactly the name: every operator in it is
/// escaped, and reading its escapes back gives the name.
pub proof fn lemma_regex_escape_reads_back(s: Seq<char>)
    ensures
        regex_literal(regex_escaped(s)) == Some(s),
    decreases s.len(),
{
    if s.len() > 0 {
        lemma_regex_escape_reads_back(s.drop_last());
        let c = s.last();
        let tail = if is_regex_meta(c) {
            seq!['\\', c]
        } else {
            seq![c]
        };
        assert(regex_escaped(s) == regex_escaped(s.drop_last()) + tail);
        lemma_regex_literal_concat(regex_escaped(s.drop_last()), tail);
        assert(regex_literal(Seq::<char>::empty()) == Some(Seq::<char>::empty()));
        assert(seq![c] + Seq::<char>::empty() =~= seq![c]);
        if is_regex_meta(c) {
            assert(tail.skip(2) =~= Seq::<char>::empty());
            assert(tail[0] == '\\' && tail[1] == c);
        } else {
            assert(tail.skip(1) =~= Seq::<char>::empty());
            assert(tail[0] == c && c != '\\');
        }
        assert(regex_literal(tail) == Some(seq![c]));
        assert(s.drop_last() + seq![c] =~= s);
    } else {
        assert(regex_escaped(s) == Seq::<char>::empty());
    }
}

/// Escapes a node name so that a regular expression matches it literally.
pub fn escape_regex(value: &str) -> (r: String)
    ensures
        r@ == regex_escaped(value@),
{
    let v = chars_of(value);
    let mut escaped = String::new();
    let mut i: usize = 0;
    while i < v.len()
        invariant
            i <= v.len(),
            v@ == value@,
            escaped@ == regex_escaped(v@.take(i as int)),
        decreases v.len() - i,
    {
        let c = v[i];
        assert(v@.take(i + 1).drop_last() =~= v@.take(i as int));
        assert(v@.take(i + 1).last() == c);
        if c == '\\' || c == '.' || c == '+' || c == '*' || c == '?' || c == '(' || c == ')' || c
            == '|' || c == '[' || c == ']' || c == '{' || c == '}' || c == '^' || c == '$' {
            escaped.push('\\');
        }
        escaped.push(c);
        i = i + 1;
        assert(escaped@ =~= regex_escaped(v@.take(i as int)));
    }
    assert(v@.take(v.len() as int) =~= v@);
    escaped
}

} // verus!
