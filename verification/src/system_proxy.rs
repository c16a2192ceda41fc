//! System proxy control: which listeners are usable, the enable/restore decisions of a session,
//! and the exact platform commands (macOS `networksetup`, GNOME `gsettings`, Windows `reg`) that
//! apply Relay's ports and restore the previous settings.
use vstd::prelude::*;

use crate::store::has_suffix;
use crate::text::{
    ascii_lower, chars_equal, chars_of, contains_seq, contains_str, decimal, eq_ignore_ascii_case,
    has_prefix,
    lines, lines_of, parse_unsigned, parse_unsigned_exec, push_decimal, split_once,
    split_once_exec, string_of, trim, trim_chars, views, words, words_of,
};

verus! {

/// The language of user-facing messages.
#[derive(Clone, Copy, Debug, PartialEq, Eq, Structural)]
pub enum Language {
    English,
    SimplifiedChinese,
}

impl Language {
    /// The text for this language.
    pub fn text(self, english: &'static str, chinese: &'static str) -> (r: &'static str)
        ensures
            r == (match self {
                Language::English => english,
                Language::SimplifiedChinese => chinese,
            }),
    {
        match self {
            Language::English => english,
            Language::SimplifiedChinese => chinese,
        }
    }
}

/// The local listeners of the proxy kernel.
#[derive(Clone, Copy, Debug, PartialEq, Eq, Structural)]
pub struct ProxyPorts {
    pub http: Option<u16>,
    pub socks: Option<u16>,
}

#[derive(Debug, PartialEq, Eq)]
pub enum SystemProxyError {
    Unavailable(String),
    CommandFailed(String),
}

impl SystemProxyError {
    pub fn message(&self) -> (r: &str)
        ensures
            r@ == match *self {
                SystemProxyError::Unavailable(m) => m@,
                SystemProxyError::CommandFailed(m) => m@,
            },
    {
        match self {
            SystemProxyError::Unavailable(message) => message.as_str(),
            SystemProxyError::CommandFailed(message) => message.as_str(),
        }
    }
}

pub open spec fn no_listener_text(language: Language) -> Seq<char> {
    match language {
        Language::English => "Mihomo has no open HTTP, mixed, or SOCKS listener"@,
        Language::SimplifiedChinese => "Mihomo 没有开放 HTTP、mixed 或 SOCKS 端口"@,
    }
}

impl ProxyPorts {
    /// The ports, when at least one listener is open.
    pub fn usable_with_language(self, language: Language) -> (r: Result<Self, SystemProxyError>)
        ensures
            r is Ok <==> (self.http is Some || self.socks is Some),
            r matches Ok(p) ==> p == self,
            r matches Err(e) ==> e matches SystemProxyError::Unavailable(m) && m@
                == no_listener_text(language),
    {
        if self.http.is_none() && self.socks.is_none() {
            Err(
                SystemProxyError::Unavailable(
                    language.text(
                        "Mihomo has no open HTTP, mixed, or SOCKS listener",
                        "Mihomo 没有开放 HTTP、mixed 或 SOCKS 端口",
                    ).to_owned(),
                ),
            )
        } else {
            Ok(self)
        }
    }
}

/// What enabling the system proxy has to do: restore the settings that an earlier enable
/// replaced, then apply the ports.
#[derive(Clone, Copy, Debug, PartialEq, Eq, Structural)]
pub struct EnablePlan {
    pub restore_first: bool,
    pub ports: ProxyPorts,
}

/// Whether Relay's ports are applied to the system proxy, so that the previous settings must be
/// restored before they are applied again or when the proxy is turned off.
#[derive(Debug, Default)]
pub struct SystemProxySession {
    applied: bool,
}

impl SystemProxySession {
    pub closed spec fn is_applied(&self) -> bool {
        self.applied
    }

    pub fn new() -> (r: Self)
        ensures
            !r.is_applied(),
    {
        SystemProxySession { applied: false }
    }

    pub fn applied(&self) -> (r: bool)
        ensures
            r == self.is_applied(),
    {
        self.applied
    }

    /// Decides how to enable the proxy with `ports`: refused without a listener, otherwise the
    /// previous settings are restored first when Relay's are still applied.
    pub fn plan_enable(&self, ports: ProxyPorts, language: Language) -> (r: Result<
        EnablePlan,
        SystemProxyError,
    >)
        ensures
            r is Ok <==> (ports.http is Some || ports.socks is Some),
            r matches Ok(plan) ==> plan.ports == ports && plan.restore_first == self.is_applied(),
            r matches Err(e) ==> e matches SystemProxyError::Unavailable(m) && m@
                == no_listener_text(language),
    {
        let ports = ports.usable_with_language(language)?;
        Ok(EnablePlan { restore_first: self.applied, ports })
    }

    /// Records that the ports were applied.
    pub fn mark_enabled(&mut self)
        ensures
            final(self).is_applied(),
    {
        self.applied = true;
    }

    /// Whether turning the proxy off has settings to restore.
    pub fn plan_disable(&self) -> (r: bool)
        ensures
            r == self.is_applied(),
    {
        self.applied
    }

    /// Records that the previous settings were restored.
    pub fn mark_disabled(&mut self)
        ensures
            !final(self).is_applied(),
    {
        self.applied = false;
    }
}

pub open spec fn strings_view(v: Seq<String>) -> Seq<Seq<char>> {
    v.map_values(|s: String| s@)
}

pub open spec fn commands_view(v: Seq<Vec<String>>) -> Seq<Seq<Seq<char>>> {
    v.map_values(|c: Vec<String>| strings_view(c@))
}

fn decimal_string(n: u16) -> (r: String)
    ensures
        r@ == decimal(n as nat),
{
    let mut out = String::new();
    push_decimal(&mut out, n as u128);
    out
}

fn command4(a: &str, b: &str, c: &str, d: String) -> (r: Vec<String>)
    ensures
        strings_view(r@) == seq![a@, b@, c@, d@],
{
    let r = vec![a.to_owned(), b.to_owned(), c.to_owned(), d];
    assert(strings_view(r@) =~= seq![a@, b@, c@, d@]);
    r
}

fn command3(a: &str, b: &str, c: &str) -> (r: Vec<String>)
    ensures
        strings_view(r@) == seq![a@, b@, c@],
{
    let r = vec![a.to_owned(), b.to_owned(), c.to_owned()];
    assert(strings_view(r@) =~= seq![a@, b@, c@]);
    r
}

fn push_command(commands: &mut Vec<Vec<String>>, command: Vec<String>)
    ensures
        commands_view(final(commands)@) == commands_view(old(commands)@).push(
            strings_view(command@),
        ),
{
    let ghost before = commands_view(commands@);
    commands.push(command);
    assert(commands_view(commands@) =~= before.push(strings_view(command@)));
}

/// The `networksetup` commands that point one macOS network service at Relay's ports, turning
/// off the proxies without a listener.
pub open spec fn macos_service_commands(service: Seq<char>, ports: ProxyPorts) -> Seq<
    Seq<Seq<char>>,
> {
    (match ports.http {
        Some(p) => seq![
            seq!["-setwebproxy"@, service, "127.0.0.1"@, decimal(p as nat)],
            seq!["-setsecurewebproxy"@, service, "127.0.0.1"@, decimal(p as nat)],
        ],
        None => seq![
            seq!["-setwebproxystate"@, service, "off"@],
            seq!["-setsecurewebproxystate"@, service, "off"@],
        ],
    }) + match ports.socks {
        Some(p) => seq![seq!["-setsocksfirewallproxy"@, service, "127.0.0.1"@, decimal(p as nat)]],
        None => seq![seq!["-setsocksfirewallproxystate"@, service, "off"@]],
    }
}

/// The `networksetup` commands, in order, that apply the ports to one service.
pub fn apply_service(service: &str, ports: ProxyPorts) -> (r: Vec<Vec<String>>)
    ensures
        commands_view(r@) == macos_service_commands(service@, ports),
{
    let mut commands: Vec<Vec<String>> = Vec::new();
    match ports.http {
        Some(port) => {
            push_command(
                &mut commands,
                command4("-setwebproxy", service, "127.0.0.1", decimal_string(port)),
            );
            push_command(
                &mut commands,
                command4("-setsecurewebproxy", service, "127.0.0.1", decimal_string(port)),
            );
        },
        None => {
            push_command(&mut commands, command3("-setwebproxystate", service, "off"));
            push_command(&mut commands, command3("-setsecurewebproxystate", service, "off"));
        },
    }
    match ports.socks {
        Some(port) => {
            push_command(
                &mut commands,
                command4("-setsocksfirewallproxy", service, "127.0.0.1", decimal_string(port)),
            );
        },
        None => {
            push_command(&mut commands, command3("-setsocksfirewallproxystate", service, "off"));
        },
    }
    assert(commands_view(commands@) =~= macos_service_commands(service@, ports));
    commands
}

/// Applying the ports to a macOS service addresses each of its three proxies (web, secure web,
/// SOCKS) once, in that order, always naming the service: a proxy whose listener is open is
/// pointed at the loopback host and that listener's port, the web proxies sharing the HTTP
/// listener; a proxy without one is switched off.
pub proof fn lemma_macos_service_addresses_each_proxy(service: Seq<char>, ports: ProxyPorts)
    ensures
        ({
            let c = macos_service_commands(service, ports);
            &&& c.len() == 3
            &&& forall|k: int| 0 <= k < 3 ==> (#[trigger] c[k])[1] == service
            &&& c[0][0] != c[1][0] && c[1][0] != c[2][0] && c[0][0] != c[2][0]
            &&& ports.http matches Some(p) ==> c[0].len() == 4 && c[0][2] == "127.0.0.1"@ && c[0][3]
                == decimal(p as nat) && c[1].len() == 4 && c[1][2] == "127.0.0.1"@ && c[1][3]
                == decimal(p as nat)
            &&& ports.http is None ==> c[0].len() == 3 && c[0][2] == "off"@ && c[1].len() == 3
                && c[1][2] == "off"@
            &&& ports.socks matches Some(p) ==> c[2].len() == 4 && c[2][2] == "127.0.0.1"@ && c[2][3]
                == decimal(p as nat)
            &&& ports.socks is None ==> c[2].len() == 3 && c[2][2] == "off"@
        }),
{
    reveal_strlit("-setwebproxy");
    reveal_strlit("-setsecurewebproxy");
    reveal_strlit("-setsocksfirewallproxy");
    reveal_strlit("-setwebproxystate");
    reveal_strlit("-setsecurewebproxystate");
    reveal_strlit("-setsocksfirewallproxystate");
    assert("-setwebproxy"@[4] != "-setsecurewebproxy"@[4]);
    assert("-setwebproxy"@[4] != "-setsocksfirewallproxy"@[4]);
    assert("-setsecurewebproxy"@[5] != "-setsocksfirewallproxy"@[5]);
    assert("-setwebproxystate"@[4] != "-setsecurewebproxystate"@[4]);
    assert("-setwebproxystate"@[4] != "-setsocksfirewallproxystate"@[4]);
    assert("-setsecurewebproxystate"@[5] != "-setsocksfirewallproxystate"@[5]);
    assert("-setwebproxy"@.len() != "-setsocksfirewallproxystate"@.len());
    assert("-setsecurewebproxy"@.len() != "-setsocksfirewallproxystate"@.len());
    assert("-setwebproxystate"@[4] != "-setsocksfirewallproxy"@[4]);
    assert("-setsecurewebproxystate"@[5] != "-setsocksfirewallproxy"@[5]);
}

/// One proxy setting of a macOS network service.
#[derive(Debug, PartialEq, Eq)]
pub struct ProxySetting {
    pub enabled: bool,
    pub server: String,
    pub port: u16,
}

pub struct SettingView {
    pub enabled: bool,
    pub server: Seq<char>,
    pub port: u16,
}

/// What one line of `networksetup -get...proxy` output sets.
pub open spec fn setting_line(st: SettingView, line: Seq<char>) -> SettingView {
    match split_once(line, ':') {
        None => st,
        Some((key, value)) => {
            let k = trim(key);
            let v = trim(value);
            if k == "Enabled"@ {
                SettingView { enabled: ascii_lower(v) == ascii_lower("yes"@), ..st }
            } else if k == "Server"@ {
                SettingView { server: v, ..st }
            } else if k == "Port"@ {
                SettingView {
                    port: match parse_unsigned(v, 65535) {
                        Some(p) => p as u16,
                        None => 0,
                    },
                    ..st
                }
            } else {
                st
            }
        },
    }
}

pub open spec fn setting_lines(ls: Seq<Seq<char>>) -> SettingView
    decreases ls.len(),
{
    if ls.len() == 0 {
        SettingView { enabled: false, server: Seq::empty(), port: 0 }
    } else {
        setting_line(setting_lines(ls.drop_last()), ls.last())
    }
}

fn literal_is(v: &[char], literal: &str) -> (r: bool)
    ensures
        r == (v@ == literal@),
{
    let l = chars_of(literal);
    chars_equal(v, l.as_slice())
}

/// Reads the `Enabled`, `Server` and `Port` lines of a proxy setting; later lines win, and an
/// unreadable port reads as 0.
pub fn read_setting(output: &str) -> (r: ProxySetting)
    ensures
        r.enabled == setting_lines(lines(output@)).enabled,
        r.server@ == setting_lines(lines(output@)).server,
        r.port == setting_lines(lines(output@)).port,
{
    let v = chars_of(output);
    let ls = lines_of(v.as_slice());
    let ghost all = views(ls@);
    let mut enabled = false;
    let mut server: Vec<char> = Vec::new();
    let mut port: u16 = 0;
    let mut i: usize = 0;
    while i < ls.len()
        invariant
            i <= ls.len(),
            all == views(ls@),
            setting_lines(all.take(i as int)) == (SettingView { enabled, server: server@, port }),
        decreases ls.len() - i,
    {
        assert(all.take(i + 1).drop_last() == all.take(i as int));
        assert(all.take(i + 1).last() == ls@[i as int]@);
        if let Some((key, value)) = split_once_exec(ls[i].as_slice(), ':') {
            let k = trim_chars(key.as_slice());
            let value = trim_chars(value.as_slice());
            if literal_is(k.as_slice(), "Enabled") {
                let yes = chars_of("yes");
                enabled = eq_ignore_ascii_case(value.as_slice(), yes.as_slice());
            } else if literal_is(k.as_slice(), "Server") {
                server = value;
            } else if literal_is(k.as_slice(), "Port") {
                port = match parse_unsigned_exec(value.as_slice(), 65535) {
                    Some(p) => p as u16,
                    None => 0,
                };
            }
        }
        i = i + 1;
    }
    assert(all.take(ls.len() as int) == all);
    ProxySetting { enabled, server: string_of(server.as_slice()), port }
}

/// The trimmed service names after the header line, without blank lines and without disabled
/// services (marked `*`).
pub open spec fn service_names(ls: Seq<Seq<char>>) -> Seq<Seq<char>>
    decreases ls.len(),
{
    if ls.len() == 0 {
        Seq::empty()
    } else {
        let t = trim(ls.last());
        if t.len() > 0 && t[0] != '*' {
            service_names(ls.drop_last()).push(t)
        } else {
            service_names(ls.drop_last())
        }
    }
}

/// The lines after the header line.
pub open spec fn after_header(ls: Seq<Seq<char>>) -> Seq<Seq<char>> {
    if ls.len() == 0 {
        ls
    } else {
        ls.skip(1)
    }
}

/// The configurable services listed by `networksetup -listallnetworkservices`.
pub fn network_services(output: &str) -> (r: Vec<String>)
    ensures
        strings_view(r@) == service_names(after_header(lines(output@))),
{
    let v = chars_of(output);
    let ls = lines_of(v.as_slice());
    let ghost all = views(ls@);
    let mut services: Vec<String> = Vec::new();
    if ls.len() == 0 {
        assert(strings_view(services@) =~= Seq::<Seq<char>>::empty());
        return services;
    }
    let ghost rest = all.skip(1);
    let mut i: usize = 1;
    assert(rest.take(0).len() == 0);
    assert(strings_view(services@) =~= Seq::<Seq<char>>::empty());
    while i < ls.len()
        invariant
            1 <= i <= ls.len(),
            all == views(ls@),
            rest == all.skip(1),
            strings_view(services@) == service_names(rest.take(i - 1)),
        decreases ls.len() - i,
    {
        assert(rest.take(i as int).drop_last() == rest.take(i - 1));
        assert(rest.take(i as int).last() == ls@[i as int]@);
        let t = trim_chars(ls[i].as_slice());
        if t.len() > 0 && t[0] != '*' {
            let ghost before = strings_view(services@);
            services.push(string_of(t.as_slice()));
            assert(strings_view(services@) =~= before.push(t@));
        }
        i = i + 1;
    }
    assert(rest.take(ls.len() - 1) == rest);
    services
}

/// The `networksetup` commands that restore one saved proxy setting: its server and port when
/// it had one, then its on/off state.
pub open spec fn macos_restore_setting_commands(
    service: Seq<char>,
    set_command: Seq<char>,
    state_command: Seq<char>,
    setting: SettingView,
) -> Seq<Seq<Seq<char>>> {
    (if setting.server.len() > 0 && setting.port > 0 {
        seq![seq![set_command, service, setting.server, decimal(setting.port as nat)]]
    } else {
        Seq::empty()
    }) + seq![
        seq![
            state_command,
            service,
            if setting.enabled {
                "on"@
            } else {
                "off"@
            },
        ],
    ]
}

/// The commands that restore one saved proxy setting.
pub fn restore_setting(
    service: &str,
    set_command: &str,
    state_command: &str,
    setting: &ProxySetting,
) -> (r: Vec<Vec<String>>)
    ensures
        commands_view(r@) == macos_restore_setting_commands(
            service@,
            set_command@,
            state_command@,
            SettingView { enabled: setting.enabled, server: setting.server@, port: setting.port },
        ),
{
    let mut commands: Vec<Vec<String>> = Vec::new();
    if !setting.server.as_str().is_empty() && setting.port > 0 {
        let command = vec![
            set_command.to_owned(),
            service.to_owned(),
            setting.server.clone(),
            decimal_string(setting.port),
        ];
        assert(strings_view(command@) =~= seq![
            set_command@,
            service@,
            setting.server@,
            decimal(setting.port as nat),
        ]);
        push_command(&mut commands, command);
    }
    let state = if setting.enabled {
        "on"
    } else {
        "off"
    };
    push_command(&mut commands, command3(state_command, service, state));
    assert(commands_view(commands@) =~= macos_restore_setting_commands(
        service@,
        set_command@,
        state_command@,
        SettingView { enabled: setting.enabled, server: setting.server@, port: setting.port },
    ));
    commands
}

/// The `gsettings set` arguments (schema, key, value), in order, that point GNOME at Relay's
/// ports and switch it to manual mode.
pub open spec fn gnome_enable_commands(ports: ProxyPorts) -> Seq<Seq<Seq<char>>> {
    (match ports.http {
        Some(p) => seq![
            seq!["org.gnome.system.proxy.http"@, "host"@, "'127.0.0.1'"@],
            seq!["org.gnome.system.proxy.http"@, "port"@, decimal(p as nat)],
            seq!["org.gnome.system.proxy.https"@, "host"@, "'127.0.0.1'"@],
            seq!["org.gnome.system.proxy.https"@, "port"@, decimal(p as nat)],
        ],
        None => Seq::empty(),
    }) + (match ports.socks {
        Some(p) => seq![
            seq!["org.gnome.system.proxy.socks"@, "host"@, "'127.0.0.1'"@],
            seq!["org.gnome.system.proxy.socks"@, "port"@, decimal(p as nat)],
        ],
        None => Seq::empty(),
    }) + seq![seq!["org.gnome.system.proxy"@, "mode"@, "'manual'"@]]
}

/// Enabling on GNOME points every schema at the loopback host and the port it is given: the
/// HTTP port to the HTTP and HTTPS schemas, first, then the SOCKS port to the SOCKS schema;
/// it sets nothing for an absent port, and only its last setting switches the mode to manual.
pub proof fn lemma_gnome_enable_sets_every_port(ports: ProxyPorts)
    ensures
        ({
            let c = gnome_enable_commands(ports);
            let http_count: int = if ports.http is Some {
                4
            } else {
                0
            };
            let socks_count: int = if ports.socks is Some {
                2
            } else {
                0
            };
            &&& c.len() == http_count + socks_count + 1
            &&& c.last() == seq!["org.gnome.system.proxy"@, "mode"@, "'manual'"@]
            &&& forall|i: int|
                0 <= i < c.len() - 1 ==> (#[trigger] c[i])[1] != "mode"@
            &&& ports.http matches Some(p) ==> c[0] == seq![
                "org.gnome.system.proxy.http"@,
                "host"@,
                "'127.0.0.1'"@,
            ] && c[1] == seq!["org.gnome.system.proxy.http"@, "port"@, decimal(p as nat)] && c[2]
                == seq!["org.gnome.system.proxy.https"@, "host"@, "'127.0.0.1'"@] && c[3] == seq![
                "org.gnome.system.proxy.https"@,
                "port"@,
                decimal(p as nat),
            ]
            &&& ports.socks matches Some(p) ==> c[http_count] == seq![
                "org.gnome.system.proxy.socks"@,
                "host"@,
                "'127.0.0.1'"@,
            ] && c[http_count + 1] == seq![
                "org.gnome.system.proxy.socks"@,
                "port"@,
                decimal(p as nat),
            ]
        }),
{
    reveal_strlit("mode");
    reveal_strlit("host");
    reveal_strlit("port");
    assert("host"@ != "mode"@) by {
        assert("host"@[0] != "mode"@[0]);
    }
    assert("port"@ != "mode"@) by {
        assert("port"@[0] != "mode"@[0]);
    }
}

fn setting3(a: &str, b: &str, c: String) -> (r: Vec<String>)
    ensures
        strings_view(r@) == seq![a@, b@, c@],
{
    let r = vec![a.to_owned(), b.to_owned(), c];
    assert(strings_view(r@) =~= seq![a@, b@, c@]);
    r
}

/// The GNOME settings, in order, that apply the ports.
pub fn gnome_enable(ports: ProxyPorts) -> (r: Vec<Vec<String>>)
    ensures
        commands_view(r@) == gnome_enable_commands(ports),
{
    let mut commands: Vec<Vec<String>> = Vec::new();
    if let Some(port) = ports.http {
        push_command(
            &mut commands,
            setting3("org.gnome.system.proxy.http", "host", "'127.0.0.1'".to_owned()),
        );
        push_command(
            &mut commands,
            setting3("org.gnome.system.proxy.http", "port", decimal_string(port)),
        );
        push_command(
            &mut commands,
            setting3("org.gnome.system.proxy.https", "host", "'127.0.0.1'".to_owned()),
        );
        push_command(
            &mut commands,
            setting3("org.gnome.system.proxy.https", "port", decimal_string(port)),
        );
    }
    if let Some(port) = ports.socks {
        push_command(
            &mut commands,
            setting3("org.gnome.system.proxy.socks", "host", "'127.0.0.1'".to_owned()),
        );
        push_command(
            &mut commands,
            setting3("org.gnome.system.proxy.socks", "port", decimal_string(port)),
        );
    }
    push_command(&mut commands, setting3("org.gnome.system.proxy", "mode", "'manual'".to_owned()));
    assert(commands_view(commands@) =~= gnome_enable_commands(ports));
    commands
}

/// The GNOME proxy settings saved before Relay's ports were applied.
#[derive(Debug, PartialEq, Eq)]
pub struct GnomeSnapshot {
    pub mode: String,
    pub http_host: String,
    pub http_port: String,
    pub https_host: String,
    pub https_port: String,
    pub socks_host: String,
    pub socks_port: String,
}

/// The GNOME settings, in order, that restore a snapshot, the mode last.
pub open spec fn gnome_restore_commands(s: GnomeSnapshot) -> Seq<Seq<Seq<char>>> {
    seq![
        seq!["org.gnome.system.proxy.http"@, "host"@, s.http_host@],
        seq!["org.gnome.system.proxy.http"@, "port"@, s.http_port@],
        seq!["org.gnome.system.proxy.https"@, "host"@, s.https_host@],
        seq!["org.gnome.system.proxy.https"@, "port"@, s.https_port@],
        seq!["org.gnome.system.proxy.socks"@, "host"@, s.socks_host@],
        seq!["org.gnome.system.proxy.socks"@, "port"@, s.socks_port@],
        seq!["org.gnome.system.proxy"@, "mode"@, s.mode@],
    ]
}

/// The GNOME settings, in order, that restore a snapshot.
pub fn gnome_restore(snapshot: &GnomeSnapshot) -> (r: Vec<Vec<String>>)
    ensures
        commands_view(r@) == gnome_restore_commands(*snapshot),
{
    let mut commands: Vec<Vec<String>> = Vec::new();
    push_command(
        &mut commands,
        setting3("org.gnome.system.proxy.http", "host", snapshot.http_host.clone()),
    );
    push_command(
        &mut commands,
        setting3("org.gnome.system.proxy.http", "port", snapshot.http_port.clone()),
    );
    push_command(
        &mut commands,
        setting3("org.gnome.system.proxy.https", "host", snapshot.https_host.clone()),
    );
    push_command(
        &mut commands,
        setting3("org.gnome.system.proxy.https", "port", snapshot.https_port.clone()),
    );
    push_command(
        &mut commands,
        setting3("org.gnome.system.proxy.socks", "host", snapshot.socks_host.clone()),
    );
    push_command(
        &mut commands,
        setting3("org.gnome.system.proxy.socks", "port", snapshot.socks_port.clone()),
    );
    push_command(
        &mut commands,
        setting3("org.gnome.system.proxy", "mode", snapshot.mode.clone()),
    );
    assert(commands_view(commands@) =~= gnome_restore_commands(*snapshot));
    commands
}

/// The WinINet `ProxyServer` value that sends HTTP, HTTPS and SOCKS traffic to Relay, each
/// protocol falling back to the other listener when its own is closed.
pub open spec fn windows_proxy_server_text(ports: ProxyPorts) -> Seq<char>
    recommends
        ports.http is Some || ports.socks is Some,
{
    let http = match ports.http {
        Some(p) => p,
        None => ports.socks->0,
    };
    let socks = match ports.socks {
        Some(p) => p,
        None => ports.http->0,
    };
    "http=127.0.0.1:"@ + decimal(http as nat) + ";https=127.0.0.1:"@ + decimal(http as nat)
        + ";socks=127.0.0.1:"@ + decimal(socks as nat)
}

/// The WinINet `ProxyServer` value for the ports.
pub fn windows_proxy_server(ports: ProxyPorts) -> (r: String)
    requires
        ports.http is Some || ports.socks is Some,
    ensures
        r@ == windows_proxy_server_text(ports),
{
    let http = match ports.http {
        Some(p) => p,
        None => ports.socks.unwrap(),
    };
    let socks = match ports.socks {
        Some(p) => p,
        None => ports.http.unwrap(),
    };
    let mut out = "http=127.0.0.1:".to_owned();
    push_decimal(&mut out, http as u128);
    out.append(";https=127.0.0.1:");
    push_decimal(&mut out, http as u128);
    out.append(";socks=127.0.0.1:");
    push_decimal(&mut out, socks as u128);
    out
}

pub open spec fn first_line_with(ls: Seq<Seq<char>>, name: Seq<char>) -> Option<Seq<char>>
    decreases ls.len(),
{
    if ls.len() == 0 {
        None
    } else if contains_seq(ls[0], name) {
        Some(ls[0])
    } else {
        first_line_with(ls.drop_first(), name)
    }
}

/// The value that `reg query` prints for `name`: the last word of the first line naming it.
pub open spec fn registry_value(output: Seq<char>, name: Seq<char>) -> Option<Seq<char>> {
    match first_line_with(lines(output), name) {
        Some(line) => if words(line).len() > 0 {
            Some(words(line).last())
        } else {
            None
        },
        None => None,
    }
}

/// Reads a value out of `reg query` output.
pub fn query(output: &str, name: &str) -> (r: Option<String>)
    ensures
        r is Some <==> registry_value(output@, name@) is Some,
        r matches Some(v) ==> registry_value(output@, name@) == Some(v@),
{
    let v = chars_of(output);
    let n = chars_of(name);
    let ls = lines_of(v.as_slice());
    let ghost all = views(ls@);
    let mut i: usize = 0;
    assert(all.skip(0) == all);
    while i < ls.len()
        invariant
            i <= ls.len(),
            all == views(ls@),
            n@ == name@,
            first_line_with(all.skip(i as int), name@) == first_line_with(lines(output@), name@),
        decreases ls.len() - i,
    {
        assert(all.skip(i as int)[0] == ls@[i as int]@);
        assert(all.skip(i as int).drop_first() == all.skip(i + 1));
        if contains_str(ls[i].as_slice(), n.as_slice()) {
            let ws = words_of(ls[i].as_slice());
            if ws.len() == 0 {
                return None;
            }
            assert(views(ws@).last() == ws@[ws.len() - 1]@);
            return Some(string_of(ws[ws.len() - 1].as_slice()));
        }
        i = i + 1;
    }
    assert(all.skip(i as int).len() == 0);
    None
}

pub open spec fn internet_settings_key() -> Seq<char> {
    "HKCU\\Software\\Microsoft\\Windows\\CurrentVersion\\Internet Settings"@
}

/// The arguments of `reg add` for one Internet Settings value.
pub open spec fn registry_add_args(name: Seq<char>, kind: Seq<char>, value: Seq<char>) -> Seq<
    Seq<char>,
> {
    seq!["add"@, internet_settings_key(), "/v"@, name, "/t"@, kind, "/d"@, value, "/f"@]
}

/// The arguments of `reg delete` for one Internet Settings value.
pub open spec fn registry_delete_args(name: Seq<char>) -> Seq<Seq<char>> {
    seq!["delete"@, internet_settings_key(), "/v"@, name, "/f"@]
}

/// The arguments of `reg add` for one Internet Settings value.
pub fn add(name: &str, kind: &str, value: &str) -> (r: Vec<String>)
    ensures
        strings_view(r@) == registry_add_args(name@, kind@, value@),
{
    let r = vec![
        "add".to_owned(),
        "HKCU\\Software\\Microsoft\\Windows\\CurrentVersion\\Internet Settings".to_owned(),
        "/v".to_owned(),
        name.to_owned(),
        "/t".to_owned(),
        kind.to_owned(),
        "/d".to_owned(),
        value.to_owned(),
        "/f".to_owned(),
    ];
    assert(strings_view(r@) =~= registry_add_args(name@, kind@, value@));
    r
}

/// The arguments of `reg delete` for one Internet Settings value.
pub fn delete(name: &str) -> (r: Vec<String>)
    ensures
        strings_view(r@) == registry_delete_args(name@),
{
    let r = vec![
        "delete".to_owned(),
        "HKCU\\Software\\Microsoft\\Windows\\CurrentVersion\\Internet Settings".to_owned(),
        "/v".to_owned(),
        name.to_owned(),
        "/f".to_owned(),
    ];
    assert(strings_view(r@) =~= registry_delete_args(name@));
    r
}

/// The WinINet settings saved before Relay's ports were applied.
#[derive(Debug, PartialEq, Eq)]
pub struct WinInetSnapshot {
    pub enabled: Option<String>,
    pub server: Option<String>,
}

pub open spec fn windows_restore_value(name: Seq<char>, kind: Seq<char>, saved: Option<String>) -> Seq<
    Seq<char>,
> {
    match saved {
        Some(v) => registry_add_args(name, kind, v@),
        None => registry_delete_args(name),
    }
}

/// The `reg` commands, in order, that apply the ports: the server value, then the switch.
pub open spec fn windows_enable_commands(ports: ProxyPorts) -> Seq<Seq<Seq<char>>> {
    seq![
        registry_add_args("ProxyServer"@, "REG_SZ"@, windows_proxy_server_text(ports)),
        registry_add_args("ProxyEnable"@, "REG_DWORD"@, "1"@),
    ]
}

/// The `reg` commands, in order, that restore a snapshot.
pub open spec fn windows_restore_commands(snapshot: WinInetSnapshot) -> Seq<Seq<Seq<char>>> {
    seq![
        windows_restore_value("ProxyServer"@, "REG_SZ"@, snapshot.server),
        windows_restore_value("ProxyEnable"@, "REG_DWORD"@, snapshot.enabled),
    ]
}

/// The `reg` commands, in order, that apply the ports: the server value, then the switch.
pub fn windows_enable(ports: ProxyPorts) -> (r: Vec<Vec<String>>)
    requires
        ports.http is Some || ports.socks is Some,
    ensures
        commands_view(r@) == windows_enable_commands(ports),
        commands_view(r@) == seq![
            registry_add_args("ProxyServer"@, "REG_SZ"@, windows_proxy_server_text(ports)),
            registry_add_args("ProxyEnable"@, "REG_DWORD"@, "1"@),
        ],
{
    let server = windows_proxy_server(ports);
    let mut commands: Vec<Vec<String>> = Vec::new();
    push_command(&mut commands, self::add("ProxyServer", "REG_SZ", server.as_str()));
    push_command(&mut commands, self::add("ProxyEnable", "REG_DWORD", "1"));
    assert(commands_view(commands@) =~= seq![
        registry_add_args("ProxyServer"@, "REG_SZ"@, windows_proxy_server_text(ports)),
        registry_add_args("ProxyEnable"@, "REG_DWORD"@, "1"@),
    ]);
    commands
}

/// The `reg` commands, in order, that restore a snapshot: a saved value is written back, an
/// absent one deleted.
pub fn windows_restore(snapshot: &WinInetSnapshot) -> (r: Vec<Vec<String>>)
    ensures
        commands_view(r@) == windows_restore_commands(*snapshot),
        commands_view(r@) == seq![
            windows_restore_value("ProxyServer"@, "REG_SZ"@, snapshot.server),
            windows_restore_value("ProxyEnable"@, "REG_DWORD"@, snapshot.enabled),
        ],
{
    let mut commands: Vec<Vec<String>> = Vec::new();
    match &snapshot.server {
        Some(value) => push_command(&mut commands, self::add("ProxyServer", "REG_SZ", value.as_str())),
        None => push_command(&mut commands, delete("ProxyServer")),
    }
    match &snapshot.enabled {
        Some(value) => push_command(
            &mut commands,
            self::add("ProxyEnable", "REG_DWORD", value.as_str()),
        ),
        None => push_command(&mut commands, delete("ProxyEnable")),
    }
    assert(commands_view(commands@) =~= seq![
        windows_restore_value("ProxyServer"@, "REG_SZ"@, snapshot.server),
        windows_restore_value("ProxyEnable"@, "REG_DWORD"@, snapshot.enabled),
    ]);
    commands
}

/// The WinINet server value sends every protocol to an open listener: HTTP and HTTPS to the
/// HTTP listener and SOCKS to the SOCKS listener when each is open, and every protocol to the
/// one listener that is open when only one is.
pub proof fn lemma_windows_server_uses_open_listeners(ports: ProxyPorts)
    requires
        ports.http is Some || ports.socks is Some,
    ensures
        ports.http matches Some(h) ==> has_prefix(
            windows_proxy_server_text(ports),
            "http=127.0.0.1:"@ + decimal(h as nat) + ";https=127.0.0.1:"@ + decimal(h as nat),
        ),
        ports.socks matches Some(s) ==> has_suffix(
            windows_proxy_server_text(ports),
            ";socks=127.0.0.1:"@ + decimal(s as nat),
        ),
        ports.http is None ==> windows_proxy_server_text(ports) == "http=127.0.0.1:"@ + decimal(
            ports.socks->0 as nat,
        ) + ";https=127.0.0.1:"@ + decimal(ports.socks->0 as nat) + ";socks=127.0.0.1:"@
            + decimal(ports.socks->0 as nat),
        ports.socks is None ==> windows_proxy_server_text(ports) == "http=127.0.0.1:"@ + decimal(
            ports.http->0 as nat,
        ) + ";https=127.0.0.1:"@ + decimal(ports.http->0 as nat) + ";socks=127.0.0.1:"@
            + decimal(ports.http->0 as nat),
{
    let t = windows_proxy_server_text(ports);
    if let Some(h) = ports.http {
        let head = "http=127.0.0.1:"@ + decimal(h as nat) + ";https=127.0.0.1:"@ + decimal(
            h as nat,
        );
        assert(t.take(head.len() as int) =~= head);
    }
    if let Some(sp) = ports.socks {
        let tail = ";socks=127.0.0.1:"@ + decimal(sp as nat);
        assert(t.skip(t.len() - tail.len()) =~= tail);
    }
}

/// Restoring a WinINet snapshot touches exactly the values that enabling writes, in the same
/// order and with the same types: each is written back where the snapshot holds it, and
/// deleted where it held nothing.
pub proof fn lemma_windows_restore_matches_enable(ports: ProxyPorts, snapshot: WinInetSnapshot)
    ensures
        windows_restore_commands(snapshot).len() == windows_enable_commands(ports).len(),
        forall|k: int|
            0 <= k < windows_enable_commands(ports).len() ==> (#[trigger] windows_restore_commands(
                snapshot,
            )[k])[3] == windows_enable_commands(ports)[k][3],
        snapshot.server matches Some(v) ==> windows_restore_commands(snapshot)[0] == windows_enable_commands(ports)[0].update(7, v@),
        snapshot.enabled matches Some(v) ==> windows_restore_commands(snapshot)[1] == windows_enable_commands(ports)[1].update(7, v@),
        snapshot.server is None ==> windows_restore_commands(snapshot)[0][0] == "delete"@,
        snapshot.enabled is None ==> windows_restore_commands(snapshot)[1][0] == "delete"@,
{
    let e = windows_enable_commands(ports);
    let r = windows_restore_commands(snapshot);
    if let Some(v) = snapshot.server {
        assert(r[0] =~= e[0].update(7, v@));
    }
    if let Some(v) = snapshot.enabled {
        assert(r[1] =~= e[1].update(7, v@));
    }
}

/// Restoring GNOME's saved settings sets every schema and key that enabling may change, and
/// the mode last.
pub proof fn lemma_gnome_restore_covers_enable(ports: ProxyPorts, snapshot: GnomeSnapshot)
    ensures
        forall|i: int|
            0 <= i < gnome_enable_commands(ports).len() ==> exists|j: int|
                0 <= j < gnome_restore_commands(snapshot).len() && (
                #[trigger] gnome_restore_commands(snapshot)[j])[0] == (
                #[trigger] gnome_enable_commands(ports)[i])[0]
                    && gnome_restore_commands(snapshot)[j][1] == gnome_enable_commands(ports)[i][1],
        gnome_restore_commands(snapshot).last().take(2) == gnome_enable_commands(ports).last().take(2),
{
    let e = gnome_enable_commands(ports);
    let r = gnome_restore_commands(snapshot);
    lemma_gnome_enable_sets_every_port(ports);
    let h: int = if ports.http is Some {
        4
    } else {
        0
    };
    assert forall|i: int| 0 <= i < e.len() implies exists|j: int|
        0 <= j < r.len() && (#[trigger] r[j])[0] == (#[trigger] e[i])[0] && r[j][1] == e[i][1] by {
        if i == e.len() - 1 {
            assert(r[6][0] == e[i][0] && r[6][1] == e[i][1]);
        } else if i < h {
            assert(r[i][0] == e[i][0] && r[i][1] == e[i][1]);
        } else {
            assert(r[i - h + 4][0] == e[i][0] && r[i - h + 4][1] == e[i][1]);
        }
    }
    assert(r.last().take(2) =~= e.last().take(2));
}

/// The message of a failed `networksetup` command.
pub fn macos_command_failed(language: Language, code: i32) -> (r: SystemProxyError)
    ensures
        r matches SystemProxyError::CommandFailed(m) && m@ == match language {
            Language::English => "macOS system proxy command failed with exit code "@ + if code
                < 0 {
                seq!['-'] + decimal((-code) as nat)
            } else {
                decimal(code as nat)
            },
            Language::SimplifiedChinese => "macOS 系统代理命令失败（退出码 "@ + (if code < 0 {
                seq!['-'] + decimal((-code) as nat)
            } else {
                decimal(code as nat)
            }) + "）"@,
        },
{
    match language {
        Language::English => {
            let mut out = "macOS system proxy command failed with exit code ".to_owned();
            crate::text::push_signed_decimal(&mut out, code as i64);
            SystemProxyError::CommandFailed(out)
        },
        Language::SimplifiedChinese => {
            let mut out = "macOS 系统代理命令失败（退出码 ".to_owned();
            crate::text::push_signed_decimal(&mut out, code as i64);
            out.append("）");
            SystemProxyError::CommandFailed(out)
        },
    }
}

} // verus!
