//! Deterministic Mihomo YAML for a validated profile.
use vstd::prelude::*;

use crate::profile::{
    profile_error, rule_policy, LogLevel, Name, PolicyGroup, PolicyGroupKind, PolicyRef,
    Profile, ProfileError, ProxyProvider, Rule,
};
use crate::text::{
    chars_of, contains_seq, decimal, has_prefix, is_control, lemma_find_char, occurs_at,
    push_decimal, split_all,
};

verus! {

/// An upper-case hexadecimal digit, as `{:X}` writes it.
pub open spec fn upper_hex_digit(d: nat) -> char {
    if d < 10 {
        (d + 48) as char
    } else {
        (d + 55) as char
    }
}

/// The escape of one character inside a double-quoted YAML scalar.
pub open spec fn escape_char(c: char) -> Seq<char> {
    if c == '"' {
        "\\\""@
    } else if c == '\\' {
        "\\\\"@
    } else if c == '\n' {
        "\\n"@
    } else if c == '\r' {
        "\\r"@
    } else if c == '\t' {
        "\\t"@
    } else if c == '\u{08}' {
        "\\b"@
    } else if c == '\u{0C}' {
        "\\f"@
    } else if is_control(c) {
        "\\u00"@ + seq![upper_hex_digit((c as nat) / 16), upper_hex_digit((c as nat) % 16)]
    } else {
        seq![c]
    }
}

pub open spec fn escaped(s: Seq<char>) -> Seq<char>
    decreases s.len(),
{
    if s.len() == 0 {
        Seq::empty()
    } else {
        escaped(s.drop_last()) + escape_char(s.last())
    }
}

/// `s` as a double-quoted YAML scalar.
pub open spec fn quoted_text(s: Seq<char>) -> Seq<char> {
    seq!['"'] + escaped(s) + seq!['"']
}

pub open spec fn bool_text(b: bool) -> Seq<char> {
    if b {
        "true"@
    } else {
        "false"@
    }
}

pub open spec fn policy_text(r: PolicyRef) -> Seq<char> {
    match r {
        PolicyRef::Direct => "DIRECT"@,
        PolicyRef::Reject => "REJECT"@,
        PolicyRef::Group(n) => n@,
    }
}

/// A rule in Mihomo's comma-separated rule syntax.
pub open spec fn rule_text(r: Rule) -> Seq<char> {
    match r {
        Rule::Domain { value, policy } => "DOMAIN,"@ + value@ + ","@ + policy_text(policy),
        Rule::DomainSuffix { value, policy } => "DOMAIN-SUFFIX,"@ + value@ + ","@ + policy_text(
            policy,
        ),
        Rule::GeoIp { country, policy, no_resolve } => "GEOIP,"@ + country@ + ","@ + policy_text(
            policy,
        ) + if no_resolve {
            ",no-resolve"@
        } else {
            Seq::empty()
        },
        Rule::Match { policy } => "MATCH,"@ + policy_text(policy),
    }
}

/// `      - <name>` lines.
pub open spec fn name_items(ns: Seq<Name>) -> Seq<char>
    decreases ns.len(),
{
    if ns.len() == 0 {
        Seq::empty()
    } else {
        name_items(ns.drop_last()) + "      - "@ + quoted_text(ns.last()@) + "\n"@
    }
}

/// `      - <policy>` lines.
pub open spec fn policy_items(rs: Seq<PolicyRef>) -> Seq<char>
    decreases rs.len(),
{
    if rs.len() == 0 {
        Seq::empty()
    } else {
        policy_items(rs.drop_last()) + "      - "@ + quoted_text(policy_text(rs.last())) + "\n"@
    }
}

/// The `use:` list of a group, absent when it names no provider.
pub open spec fn provider_use_text(ns: Seq<Name>) -> Seq<char> {
    if ns.len() == 0 {
        Seq::empty()
    } else {
        "    use:\n"@ + name_items(ns)
    }
}

pub open spec fn provider_text(p: ProxyProvider) -> Seq<char> {
    "  "@ + quoted_text(p.name@) + ":\n"@ + "    type: \"http\"\n"@ + "    url: "@ + quoted_text(
        p.url@,
    ) + "\n"@ + "    path: "@ + quoted_text(p.path@) + "\n"@ + "    interval: "@ + decimal(
        p.interval_secs as nat,
    ) + "\n"@ + "    proxy: \"DIRECT\"\n    health-check:\n"@ + "      enable: "@ + bool_text(
        p.health_check.enabled,
    ) + "\n"@ + "      url: "@ + quoted_text(p.health_check.url@) + "\n"@ + "      interval: "@
        + decimal(p.health_check.interval_secs as nat) + "\n"@
        + "      timeout: 5000\n      lazy: true\n      expected-status: 204\n"@
}

pub open spec fn group_text(g: PolicyGroup) -> Seq<char> {
    "  - name: "@ + quoted_text(g.name@) + "\n"@ + match g.kind {
        PolicyGroupKind::Select { proxies, use_providers } => "    type: \"select\"\n"@ + (if proxies@.len()
            == 0 {
            Seq::empty()
        } else {
            "    proxies:\n"@ + policy_items(proxies@)
        }) + provider_use_text(use_providers@),
        PolicyGroupKind::UrlTest { use_providers, url, interval_secs } => "    type: \"url-test\"\n"@
            + provider_use_text(use_providers@) + "    url: "@ + quoted_text(url@) + "\n"@
            + "    interval: "@ + decimal(interval_secs as nat) + "\n"@ + "    lazy: true\n"@,
    }
}

pub open spec fn providers_text(ps: Seq<ProxyProvider>) -> Seq<char>
    decreases ps.len(),
{
    if ps.len() == 0 {
        Seq::empty()
    } else {
        providers_text(ps.drop_last()) + provider_text(ps.last())
    }
}

pub open spec fn groups_text(gs: Seq<PolicyGroup>) -> Seq<char>
    decreases gs.len(),
{
    if gs.len() == 0 {
        Seq::empty()
    } else {
        groups_text(gs.drop_last()) + group_text(gs.last())
    }
}

pub open spec fn rules_text(rs: Seq<Rule>) -> Seq<char>
    decreases rs.len(),
{
    if rs.len() == 0 {
        Seq::empty()
    } else {
        rules_text(rs.drop_last()) + "  - "@ + quoted_text(rule_text(rs.last())) + "\n"@
    }
}

pub open spec fn log_level_text(l: LogLevel) -> Seq<char> {
    match l {
        LogLevel::Silent => "silent"@,
        LogLevel::Warning => "warning"@,
    }
}

/// The Mihomo YAML document of a profile.
pub open spec fn mihomo_yaml(p: Profile) -> Seq<char> {
    yaml_header() + yaml_settings(p) + "proxy-providers:\n"@ + providers_text(p.providers@)
        + "proxy-groups:\n"@ + groups_text(p.groups@) + "rules:\n"@ + rules_text(p.rules@)
}

fn upper_hex_digit_exec(d: u32) -> (c: char)
    requires
        d < 16,
    ensures
        c == upper_hex_digit(d as nat),
{
    if d < 10 {
        ((d as u8) + 48) as char
    } else {
        ((d as u8) + 55) as char
    }
}

fn push_escaped_char(out: &mut String, c: char)
    ensures
        final(out)@ == old(out)@ + escape_char(c),
{
    if c == '"' {
        out.append("\\\"");
    } else if c == '\\' {
        out.append("\\\\");
    } else if c == '\n' {
        out.append("\\n");
    } else if c == '\r' {
        out.append("\\r");
    } else if c == '\t' {
        out.append("\\t");
    } else if c == '\u{08}' {
        out.append("\\b");
    } else if c == '\u{0C}' {
        out.append("\\f");
    } else if crate::text::char_is_control(c) {
        let ghost before = out@;
        out.append("\\u00");
        let code = c as u32;
        out.push(upper_hex_digit_exec(code / 16));
        out.push(upper_hex_digit_exec(code % 16));
        assert(out@ =~= before + escape_char(c));
    } else {
        out.push(c);
        assert(seq![c] == escape_char(c));
    }
}

/// `value` as a double-quoted YAML scalar.
pub fn quoted(value: &str) -> (r: String)
    ensures
        r@ == quoted_text(value@),
{
    let v = chars_of(value);
    let mut output = String::new();
    output.push('"');
    let mut i: usize = 0;
    while i < v.len()
        invariant
            i <= v.len(),
            output@ == seq!['"'] + escaped(v@.take(i as int)),
        decreases v.len() - i,
    {
        let ghost before = output@;
        push_escaped_char(&mut output, v[i]);
        assert(v@.take(i + 1).drop_last() == v@.take(i as int));
        i = i + 1;
        assert(output@ =~= seq!['"'] + escaped(v@.take(i as int)));
    }
    assert(v@.take(v.len() as int) == v@);
    output.push('"');
    output
}

pub fn policy_name(policy: &PolicyRef) -> (r: &str)
    ensures
        r@ == policy_text(*policy),
{
    match policy {
        PolicyRef::Direct => "DIRECT",
        PolicyRef::Reject => "REJECT",
        PolicyRef::Group(name) => name.as_str(),
    }
}

pub fn render_rule(rule: &Rule) -> (r: String)
    ensures
        r@ == rule_text(*rule),
{
    match rule {
        Rule::Domain { value, policy } => {
            let mut out = "DOMAIN,".to_owned();
            out.append(value.as_str());
            out.append(",");
            out.append(policy_name(policy));
            out
        },
        Rule::DomainSuffix { value, policy } => {
            let mut out = "DOMAIN-SUFFIX,".to_owned();
            out.append(value.as_str());
            out.append(",");
            out.append(policy_name(policy));
            out
        },
        Rule::GeoIp { country, policy, no_resolve } => {
            let mut out = "GEOIP,".to_owned();
            out.append(country.as_str());
            out.append(",");
            out.append(policy_name(policy));
            if *no_resolve {
                out.append(",no-resolve");
            } else {
                assert(out@ =~= out@ + Seq::<char>::empty());
            }
            out
        },
        Rule::Match { policy } => {
            let mut out = "MATCH,".to_owned();
            out.append(policy_name(policy));
            out
        },
    }
}

/// Appends the `use:` list of a group.
pub fn render_provider_use(yaml: &mut String, providers: &[Name])
    ensures
        final(yaml)@ == old(yaml)@ + provider_use_text(providers@),
{
    if providers.len() == 0 {
        assert(yaml@ =~= yaml@ + Seq::<char>::empty());
        return ;
    }
    let ghost start = yaml@;
    yaml.append("    use:\n");
    let mut i: usize = 0;
    while i < providers.len()
        invariant
            i <= providers.len(),
            yaml@ == start + "    use:\n"@ + name_items(providers@.take(i as int)),
        decreases providers.len() - i,
    {
        yaml.append("      - ");
        let q = quoted(providers[i].as_str());
        yaml.append(q.as_str());
        yaml.append("\n");
        assert(providers@.take(i + 1).drop_last() == providers@.take(i as int));
        i = i + 1;
        assert(yaml@ =~= start + "    use:\n"@ + name_items(providers@.take(i as int)));
    }
    assert(providers@.take(providers.len() as int) == providers@);
    assert(yaml@ =~= start + provider_use_text(providers@));
}

fn push_bool(out: &mut String, b: bool)
    ensures
        final(out)@ == old(out)@ + bool_text(b),
{
    if b {
        out.append("true");
    } else {
        out.append("false");
    }
}

fn render_provider(yaml: &mut String, provider: &ProxyProvider)
    ensures
        final(yaml)@ == old(yaml)@ + provider_text(*provider),
{
    let mut block = "  ".to_owned();
    block.append(quoted(provider.name.as_str()).as_str());
    block.append(":\n");
    block.append("    type: \"http\"\n");
    block.append("    url: ");
    block.append(quoted(provider.url.expose()).as_str());
    block.append("\n");
    block.append("    path: ");
    block.append(quoted(provider.path.as_str()).as_str());
    block.append("\n");
    block.append("    interval: ");
    push_decimal(&mut block, provider.interval_secs as u128);
    block.append("\n");
    block.append("    proxy: \"DIRECT\"\n    health-check:\n");
    block.append("      enable: ");
    push_bool(&mut block, provider.health_check.enabled);
    block.append("\n");
    block.append("      url: ");
    block.append(quoted(provider.health_check.url.as_str()).as_str());
    block.append("\n");
    block.append("      interval: ");
    push_decimal(&mut block, provider.health_check.interval_secs as u128);
    block.append("\n");
    block.append("      timeout: 5000\n      lazy: true\n      expected-status: 204\n");
    yaml.append(block.as_str());
}

fn render_group(yaml: &mut String, group: &PolicyGroup)
    ensures
        final(yaml)@ == old(yaml)@ + group_text(*group),
{
    let mut block = "  - name: ".to_owned();
    block.append(quoted(group.name.as_str()).as_str());
    block.append("\n");
    match &group.kind {
        PolicyGroupKind::Select { proxies, use_providers } => {
            let mut kind = "    type: \"select\"\n".to_owned();
            let mut listed = String::new();
            if proxies.len() > 0 {
                listed.append("    proxies:\n");
                let ghost title = listed@;
                let mut i: usize = 0;
                while i < proxies.len()
                    invariant
                        i <= proxies.len(),
                        yaml@ == old(yaml)@,
                        listed@ == title + policy_items(proxies@.take(i as int)),
                    decreases proxies.len() - i,
                {
                    listed.append("      - ");
                    listed.append(quoted(policy_name(&proxies[i])).as_str());
                    listed.append("\n");
                    assert(proxies@.take(i + 1).drop_last() == proxies@.take(i as int));
                    i = i + 1;
                    assert(listed@ =~= title + policy_items(proxies@.take(i as int)));
                }
                assert(proxies@.take(proxies.len() as int) == proxies@);
                assert(listed@ =~= "    proxies:\n"@ + policy_items(proxies@));
            }
            kind.append(listed.as_str());
            render_provider_use(&mut kind, use_providers.as_slice());
            block.append(kind.as_str());
        },
        PolicyGroupKind::UrlTest { use_providers, url, interval_secs } => {
            let mut kind = "    type: \"url-test\"\n".to_owned();
            render_provider_use(&mut kind, use_providers.as_slice());
            kind.append("    url: ");
            kind.append(quoted(url.as_str()).as_str());
            kind.append("\n");
            kind.append("    interval: ");
            push_decimal(&mut kind, *interval_secs as u128);
            kind.append("\n");
            kind.append("    lazy: true\n");
            block.append(kind.as_str());
        },
    }
    yaml.append(block.as_str());
}

/// Renders the Relay profile schema as deterministic Mihomo YAML. A successful result holds
/// the subscription URL and must itself be treated as secret material.
pub fn render_mihomo_yaml(profile: &Profile) -> (r: Result<String, ProfileError>)
    ensures
        r is Ok <==> profile_error(*profile) is None,
        r matches Ok(yaml) ==> yaml@ == mihomo_yaml(*profile),
        r matches Err(e) ==> profile_error(*profile) == Some(e),
{
    profile.validate()?;
    Ok(render_profile_text(profile))
}

fn push_providers(yaml: &mut String, providers: &Vec<ProxyProvider>)
    ensures
        final(yaml)@ == old(yaml)@ + providers_text(providers@),
{
    let ghost head = yaml@;
    assert(providers@.take(0) =~= Seq::<ProxyProvider>::empty());
    assert(yaml@ =~= head + providers_text(providers@.take(0)));
    let mut i: usize = 0;
    while i < providers.len()
        invariant
            i <= providers.len(),
            yaml@ == head + providers_text(providers@.take(i as int)),
        decreases providers.len() - i,
    {
        render_provider(yaml, &providers[i]);
        assert(providers@.take(i + 1).drop_last() == providers@.take(i as int));
        i = i + 1;
        assert(yaml@ =~= head + providers_text(providers@.take(i as int)));
    }
    assert(providers@.take(providers.len() as int) == providers@);
}

fn push_groups(yaml: &mut String, groups: &Vec<PolicyGroup>)
    ensures
        final(yaml)@ == old(yaml)@ + groups_text(groups@),
{
    let ghost head = yaml@;
    assert(groups@.take(0) =~= Seq::<PolicyGroup>::empty());
    assert(yaml@ =~= head + groups_text(groups@.take(0)));
    let mut i: usize = 0;
    while i < groups.len()
        invariant
            i <= groups.len(),
            yaml@ == head + groups_text(groups@.take(i as int)),
        decreases groups.len() - i,
    {
        render_group(yaml, &groups[i]);
        assert(groups@.take(i + 1).drop_last() == groups@.take(i as int));
        i = i + 1;
        assert(yaml@ =~= head + groups_text(groups@.take(i as int)));
    }
    assert(groups@.take(groups.len() as int) == groups@);
}

fn push_rules(yaml: &mut String, rules: &Vec<Rule>)
    ensures
        final(yaml)@ == old(yaml)@ + rules_text(rules@),
{
    let ghost head = yaml@;
    assert(rules@.take(0) =~= Seq::<Rule>::empty());
    assert(yaml@ =~= head + rules_text(rules@.take(0)));
    let mut i: usize = 0;
    while i < rules.len()
        invariant
            i <= rules.len(),
            yaml@ == head + rules_text(rules@.take(i as int)),
        decreases rules.len() - i,
    {
        yaml.append("  - ");
        yaml.append(quoted(render_rule(&rules[i]).as_str()).as_str());
        yaml.append("\n");
        assert(rules@.take(i + 1).drop_last() == rules@.take(i as int));
        i = i + 1;
        assert(yaml@ =~= head + rules_text(rules@.take(i as int)));
    }
    assert(rules@.take(rules.len() as int) == rules@);
}

fn render_profile_text(profile: &Profile) -> (yaml: String)
    ensures
        yaml@ == mihomo_yaml(*profile),
{
    let mut yaml = "mode: \"rule\"\nallow-lan: false\nbind-address: \"127.0.0.1\"\n".to_owned();
    yaml.append("mixed-port: ");
    push_decimal(&mut yaml, profile.mixed_port as u128);
    yaml.append("\n");
    yaml.append("log-level: \"");
    match profile.log_level {
        LogLevel::Silent => yaml.append("silent"),
        LogLevel::Warning => yaml.append("warning"),
    }
    yaml.append("\"\n");
    yaml.append("profile:\n");
    yaml.append("  store-selected: ");
    push_bool(&mut yaml, profile.store_selected);
    yaml.append("\n");
    assert(yaml@ =~= yaml_header() + yaml_settings(*profile));
    yaml.append("proxy-providers:\n");
    push_providers(&mut yaml, &profile.providers);
    yaml.append("proxy-groups:\n");
    push_groups(&mut yaml, &profile.groups);
    yaml.append("rules:\n");
    push_rules(&mut yaml, &profile.rules);
    yaml
}

/// The value of a hexadecimal digit in a YAML `\u` escape.
pub open spec fn yaml_hex_value(c: char) -> Option<nat> {
    if '0' <= c && c <= '9' {
        Some((c as nat - 48) as nat)
    } else if 'A' <= c && c <= 'F' {
        Some((c as nat - 55) as nat)
    } else if 'a' <= c && c <= 'f' {
        Some((c as nat - 87) as nat)
    } else {
        None
    }
}

/// The character of a one-letter YAML escape.
pub open spec fn yaml_single_escape(e: char) -> Option<char> {
    if e == '"' {
        Some('"')
    } else if e == '\\' {
        Some('\\')
    } else if e == 'n' {
        Some('\n')
    } else if e == 'r' {
        Some('\r')
    } else if e == 't' {
        Some('\t')
    } else if e == 'b' {
        Some('\u{08}')
    } else if e == 'f' {
        Some('\u{0C}')
    } else {
        None
    }
}

pub open spec fn prepend(c: char, o: Option<Seq<char>>) -> Option<Seq<char>> {
    match o {
        Some(r) => Some(seq![c] + r),
        None => None,
    }
}

/// What the body of a double-quoted YAML scalar reads as, for the escapes `\"`, `\\`, `\n`,
/// `\r`, `\t`, `\b`, `\f` and `\uXXXX`; `None` for a bare quote or any other escape.
pub open spec fn yaml_unescaped(t: Seq<char>) -> Option<Seq<char>>
    decreases t.len(),
{
    if t.len() == 0 {
        Some(Seq::empty())
    } else if t[0] == '"' {
        None
    } else if t[0] == '\\' {
        if t.len() < 2 {
            None
        } else {
            match yaml_single_escape(t[1]) {
                Some(c) => prepend(c, yaml_unescaped(t.skip(2))),
                None => if t[1] == 'u' && t.len() >= 6 && yaml_hex_value(t[2]) is Some
                    && yaml_hex_value(t[3]) is Some && yaml_hex_value(t[4]) is Some
                    && yaml_hex_value(t[5]) is Some {
                    let v = yaml_hex_value(t[2]).unwrap() * 4096 + yaml_hex_value(t[3]).unwrap()
                        * 256 + yaml_hex_value(t[4]).unwrap() * 16 + yaml_hex_value(
                        t[5],
                    ).unwrap();
                    if v < 0xD800 {
                        prepend(v as char, yaml_unescaped(t.skip(6)))
                    } else {
                        None
                    }
                } else {
                    None
                },
            }
        }
    } else {
        prepend(t[0], yaml_unescaped(t.drop_first()))
    }
}

proof fn lemma_escaped_front(c: char, s: Seq<char>)
    ensures
        escaped(seq![c] + s) == escape_char(c) + escaped(s),
    decreases s.len(),
{
    let t = seq![c] + s;
    if s.len() == 0 {
        assert(t.drop_last() =~= Seq::<char>::empty());
        assert(t.last() == c);
        assert(escaped(Seq::<char>::empty()) == Seq::<char>::empty());
        assert(escape_char(c) + Seq::<char>::empty() =~= escape_char(c));
        assert(s =~= Seq::<char>::empty());
    } else {
        assert(t.drop_last() =~= seq![c] + s.drop_last());
        assert(t.last() == s.last());
        lemma_escaped_front(c, s.drop_last());
        assert(escaped(s) == escaped(s.drop_last()) + escape_char(s.last()));
        assert(escaped(t) =~= escape_char(c) + escaped(s));
    }
}

proof fn lemma_upper_hex(d: nat)
    requires
        d < 16,
    ensures
        yaml_hex_value(upper_hex_digit(d)) == Some(d),
{
    let c = upper_hex_digit(d);
    if d < 10 {
        assert(c as nat == d + 48);
    } else {
        assert(c as nat == d + 55);
    }
}

proof fn lemma_unescape_char(c: char, rest: Seq<char>)
    ensures
        yaml_unescaped(escape_char(c) + rest) == prepend(c, yaml_unescaped(rest)),
{
    reveal_strlit("\\\"");
    reveal_strlit("\\\\");
    reveal_strlit("\\n");
    reveal_strlit("\\r");
    reveal_strlit("\\t");
    reveal_strlit("\\b");
    reveal_strlit("\\f");
    reveal_strlit("\\u00");
    let t = escape_char(c) + rest;
    if c == '"' || c == '\\' || c == '\n' || c == '\r' || c == '\t' || c == '\u{08}' || c
        == '\u{0C}' {
        assert(escape_char(c).len() == 2);
        assert(t.skip(2) =~= rest);
        assert(t[0] == '\\');
        assert(yaml_single_escape(t[1]) == Some(c));
    } else if is_control(c) {
        let d1 = (c as nat) / 16;
        let d2 = (c as nat) % 16;
        lemma_upper_hex(d1);
        lemma_upper_hex(d2);
        assert(escape_char(c).len() == 6);
        assert(t.skip(6) =~= rest);
        assert(t[0] == '\\');
        assert(t[1] == 'u');
        assert(yaml_single_escape(t[1]) is None);
        assert(yaml_hex_value(t[2]) == Some(0nat));
        assert(yaml_hex_value(t[3]) == Some(0nat));
        assert(t[4] == upper_hex_digit(d1));
        assert(t[5] == upper_hex_digit(d2));
        let v = 0nat * 4096 + 0nat * 256 + d1 * 16 + d2;
        assert(v == c as nat);
        assert((v as char) == c);
    } else {
        assert(escape_char(c) == seq![c]);
        assert(t.drop_first() =~= rest);
        assert(t[0] == c);
    }
}

/// The body of a quoted scalar reads back, by YAML's double-quoted escapes, as the value it
/// was rendered from.
pub proof fn lemma_quoted_round_trip(s: Seq<char>)
    ensures
        yaml_unescaped(escaped(s)) == Some(s),
    decreases s.len(),
{
    if s.len() == 0 {
        assert(escaped(s) == Seq::<char>::empty());
    } else {
        let c = s[0];
        let r = s.drop_first();
        assert(s =~= seq![c] + r);
        lemma_escaped_front(c, r);
        lemma_quoted_round_trip(r);
        lemma_unescape_char(c, escaped(r));
    }
}

/// The fixed first lines of every rendered profile.
pub open spec fn yaml_header() -> Seq<char> {
    "mode: \"rule\"\nallow-lan: false\nbind-address: \"127.0.0.1\"\n"@
}

/// The settings lines between the fixed header and the sections.
pub open spec fn yaml_settings(p: Profile) -> Seq<char> {
    "mixed-port: "@ + decimal(p.mixed_port as nat) + "\n"@ + "log-level: \""@ + log_level_text(
        p.log_level,
    ) + "\"\n"@ + "profile:\n"@ + "  store-selected: "@ + bool_text(p.store_selected) + "\n"@
}

/// The line of one rule under `rules:`.
pub open spec fn rule_line(r: Rule) -> Seq<char> {
    "  - "@ + quoted_text(rule_text(r)) + "\n"@
}

/// The `url:` line of one provider.
pub open spec fn provider_url_line(p: ProxyProvider) -> Seq<char> {
    "    url: "@ + quoted_text(p.url@) + "\n"@
}

proof fn lemma_rules_text_concat(a: Seq<Rule>, b: Seq<Rule>)
    ensures
        rules_text(a + b) == rules_text(a) + rules_text(b),
    decreases b.len(),
{
    if b.len() == 0 {
        assert(a + b =~= a);
        assert(rules_text(a) + rules_text(b) =~= rules_text(a));
    } else {
        lemma_rules_text_concat(a, b.drop_last());
        assert((a + b).drop_last() =~= a + b.drop_last());
        assert((a + b).last() == b.last());
        assert(rules_text(a + b) =~= rules_text(a) + rules_text(b));
    }
}

#[verifier::rlimit(30)]
proof fn lemma_providers_text_concat(a: Seq<ProxyProvider>, b: Seq<ProxyProvider>)
    ensures
        providers_text(a + b) == providers_text(a) + providers_text(b),
    decreases b.len(),
{
    if b.len() == 0 {
        assert(a + b =~= a);
        assert(providers_text(a) + providers_text(b) =~= providers_text(a));
    } else {
        lemma_providers_text_concat(a, b.drop_last());
        assert((a + b).drop_last() =~= a + b.drop_last());
        assert((a + b).last() == b.last());
        assert(providers_text(a + b) =~= providers_text(a) + providers_text(b));
    }
}

proof fn lemma_rule_at(rs: Seq<Rule>, i: int)
    requires
        0 <= i < rs.len(),
    ensures
        rules_text(rs) == rules_text(rs.take(i)) + rule_line(rs[i]) + rules_text(rs.skip(i + 1)),
{
    let one = seq![rs[i]];
    assert(rs =~= rs.take(i) + one + rs.skip(i + 1));
    lemma_rules_text_concat(rs.take(i) + one, rs.skip(i + 1));
    lemma_rules_text_concat(rs.take(i), one);
    assert(one.drop_last() =~= Seq::<Rule>::empty());
    assert(rules_text(Seq::<Rule>::empty()) == Seq::<char>::empty());
    assert(one.last() == rs[i]);
    assert(rules_text(one) =~= rule_line(rs[i]));
}

pub open spec fn provider_head(p: ProxyProvider) -> Seq<char> {
    "  "@ + quoted_text(p.name@) + ":\n"@ + "    type: \"http\"\n"@
}

#[verifier::rlimit(40)]
proof fn lemma_provider_url_in_text(pv: ProxyProvider)
    ensures
        occurs_at(provider_text(pv), provider_url_line(pv), provider_head(pv).len() as int),
{
    let head = provider_head(pv);
    let line = provider_url_line(pv);
    let t = provider_text(pv);
    let k = head.len() as int;
    assert(t.subrange(k, k + line.len() as int) =~= line);
}

proof fn lemma_occurs_shift(x: Seq<char>, t: Seq<char>, y: Seq<char>, l: Seq<char>, k: int)
    requires
        occurs_at(t, l, k),
    ensures
        occurs_at(x + t + y, l, x.len() + k),
{
    let s = x + t + y;
    assert(s.subrange(x.len() + k, x.len() + k + l.len()) =~= t.subrange(k, k + l.len()));
}

proof fn lemma_provider_url_at(ps: Seq<ProxyProvider>, i: int)
    requires
        0 <= i < ps.len(),
    ensures
        contains_seq(providers_text(ps), provider_url_line(ps[i])),
{
    let one = seq![ps[i]];
    assert(ps =~= ps.take(i) + one + ps.skip(i + 1));
    lemma_providers_text_concat(ps.take(i) + one, ps.skip(i + 1));
    lemma_providers_text_concat(ps.take(i), one);
    assert(one.drop_last() =~= Seq::<ProxyProvider>::empty());
    assert(providers_text(Seq::<ProxyProvider>::empty()) == Seq::<char>::empty());
    assert(one.last() == ps[i]);
    assert(providers_text(one) =~= provider_text(ps[i]));
    let pv = ps[i];
    lemma_provider_url_in_text(pv);
    let x = providers_text(ps.take(i));
    let y = providers_text(ps.skip(i + 1));
    lemma_occurs_shift(x, provider_text(pv), y, provider_url_line(pv), provider_head(pv).len() as int);
}

/// The line of one policy in a group's `proxies:` list.
pub open spec fn proxy_line(r: PolicyRef) -> Seq<char> {
    "      - "@ + quoted_text(policy_text(r)) + "\n"@
}

/// The lines of a `proxies:` list, one per policy.
pub open spec fn proxy_lines(rs: Seq<PolicyRef>) -> Seq<Seq<char>> {
    rs.map_values(|r: PolicyRef| proxy_line(r))
}

proof fn lemma_groups_text_concat(a: Seq<PolicyGroup>, b: Seq<PolicyGroup>)
    ensures
        groups_text(a + b) == groups_text(a) + groups_text(b),
    decreases b.len(),
{
    if b.len() == 0 {
        assert(a + b =~= a);
        assert(groups_text(a) + groups_text(b) =~= groups_text(a));
    } else {
        lemma_groups_text_concat(a, b.drop_last());
        assert((a + b).drop_last() =~= a + b.drop_last());
        assert((a + b).last() == b.last());
        assert(groups_text(a + b) =~= groups_text(a) + groups_text(b));
    }
}

/// A policy list is one line per policy, in order: its k-th line names its k-th policy.
pub proof fn lemma_policy_items_lines(rs: Seq<PolicyRef>)
    ensures
        policy_items(rs) == proxy_lines(rs).flatten(),
        proxy_lines(rs).len() == rs.len(),
        forall|k: int|
            0 <= k < rs.len() ==> #[trigger] proxy_lines(rs)[k] == "      - "@ + quoted_text(
                policy_text(rs[k]),
            ) + "\n"@,
    decreases rs.len(),
{
    let lines = proxy_lines(rs);
    if rs.len() == 0 {
        assert(lines =~= Seq::<Seq<char>>::empty());
    } else {
        let front = rs.drop_last();
        lemma_policy_items_lines(front);
        let front_lines = proxy_lines(front);
        assert(lines =~= front_lines.push(proxy_line(rs.last())));
        front_lines.lemma_flatten_push(proxy_line(rs.last()));
        assert(policy_items(rs) =~= lines.flatten());
    }
}

/// The lines of a `use:` list, one per provider name.
pub open spec fn name_lines(ns: Seq<Name>) -> Seq<Seq<char>> {
    ns.map_values(|n: Name| "      - "@ + quoted_text(n@) + "\n"@)
}

/// A provider list is one line per name, in order: its k-th line names its k-th provider.
pub proof fn lemma_name_items_lines(ns: Seq<Name>)
    ensures
        name_items(ns) == name_lines(ns).flatten(),
        name_lines(ns).len() == ns.len(),
        forall|k: int|
            0 <= k < ns.len() ==> #[trigger] name_lines(ns)[k] == "      - "@ + quoted_text(ns[k]@)
                + "\n"@,
    decreases ns.len(),
{
    let lines = name_lines(ns);
    if ns.len() == 0 {
        assert(lines =~= Seq::<Seq<char>>::empty());
    } else {
        let front = ns.drop_last();
        lemma_name_items_lines(front);
        let front_lines = name_lines(front);
        let last = "      - "@ + quoted_text(ns.last()@) + "\n"@;
        assert(lines =~= front_lines.push(last));
        front_lines.lemma_flatten_push(last);
        assert(name_items(ns) =~= lines.flatten());
    }
}

proof fn lemma_group_in_yaml(p: Profile, j: int)
    requires
        0 <= j < p.groups@.len(),
    ensures
        occurs_at(
            mihomo_yaml(p),
            group_text(p.groups@[j]),
            ((yaml_header() + yaml_settings(p) + "proxy-providers:\n"@ + providers_text(p.providers@)
                + "proxy-groups:\n"@).len() + groups_text(p.groups@.take(j)).len()) as int,
        ),
{
    let gs = p.groups@;
    let t = group_text(gs[j]);
    assert(occurs_at(t, t, 0)) by {
        assert(t.subrange(0, t.len() as int) =~= t);
    }
    let one = seq![gs[j]];
    assert(gs =~= gs.take(j) + one + gs.skip(j + 1));
    lemma_groups_text_concat(gs.take(j) + one, gs.skip(j + 1));
    lemma_groups_text_concat(gs.take(j), one);
    assert(one.drop_last() =~= Seq::<PolicyGroup>::empty());
    assert(groups_text(Seq::<PolicyGroup>::empty()) == Seq::<char>::empty());
    assert(one.last() == gs[j]);
    assert(groups_text(one) =~= t);
    let a = groups_text(gs.take(j));
    let b = groups_text(gs.skip(j + 1));
    lemma_occurs_shift(a, t, b, t, 0);
    assert(groups_text(gs) == a + t + b);
    let x = yaml_header() + yaml_settings(p) + "proxy-providers:\n"@ + providers_text(p.providers@)
        + "proxy-groups:\n"@;
    let y = "rules:\n"@ + rules_text(p.rules@);
    lemma_occurs_shift(x, groups_text(gs), y, t, a.len() as int);
    assert(mihomo_yaml(p) =~= x + groups_text(gs) + y);
}

/// The `use:` block of a group: absent without providers, else one line per provider in order.
pub open spec fn use_block(ns: Seq<Name>) -> Seq<char> {
    if ns.len() == 0 {
        Seq::empty()
    } else {
        "    use:\n"@ + name_lines(ns).flatten()
    }
}

/// The rendered profile holds each group as a block: its quoted name, its type, then for a
/// select group one line per proxy in order (no `proxies:` list without proxies) and one line
/// per provider under `use:`, and for a url-test group its providers, its test URL, its
/// interval and `lazy: true`.
pub proof fn lemma_group_block(p: Profile, j: int)
    requires
        0 <= j < p.groups@.len(),
    ensures
        contains_seq(
            mihomo_yaml(p),
            "  - name: "@ + quoted_text(p.groups@[j].name@) + "\n"@ + match p.groups@[j].kind {
                PolicyGroupKind::Select { proxies, use_providers } => "    type: \"select\"\n"@
                    + (if proxies@.len() == 0 {
                    Seq::empty()
                } else {
                    "    proxies:\n"@ + proxy_lines(proxies@).flatten()
                }) + use_block(use_providers@),
                PolicyGroupKind::UrlTest { use_providers, url, interval_secs } =>
                    "    type: \"url-test\"\n"@ + use_block(use_providers@) + "    url: "@
                    + quoted_text(url@) + "\n"@ + "    interval: "@ + decimal(interval_secs as nat)
                    + "\n"@ + "    lazy: true\n"@,
            },
        ),
{
    let g = p.groups@[j];
    lemma_group_in_yaml(p, j);
    match g.kind {
        PolicyGroupKind::Select { proxies, use_providers } => {
            lemma_policy_items_lines(proxies@);
            lemma_name_items_lines(use_providers@);
        },
        PolicyGroupKind::UrlTest { use_providers, url, interval_secs } => {
            lemma_name_items_lines(use_providers@);
        },
    }
}

/// The rendered profile lists each select group's proxies right under its name and type: one
/// `      - <policy>` line per proxy, the k-th line naming the k-th proxy.
pub proof fn lemma_select_proxies_in_order(p: Profile, j: int)
    requires
        0 <= j < p.groups@.len(),
    ensures
        match p.groups@[j].kind {
            PolicyGroupKind::Select { proxies, use_providers } => proxies@.len() > 0
                ==> contains_seq(
                mihomo_yaml(p),
                "  - name: "@ + quoted_text(p.groups@[j].name@) + "\n"@ + "    type: \"select\"\n"@
                    + "    proxies:\n"@ + proxy_lines(proxies@).flatten(),
            ),
            _ => true,
        },
{
    let g = p.groups@[j];
    match g.kind {
        PolicyGroupKind::Select { proxies, use_providers } => {
            if proxies@.len() > 0 {
                lemma_group_block(p, j);
                let l = "  - name: "@ + quoted_text(g.name@) + "\n"@ + "    type: \"select\"\n"@
                    + "    proxies:\n"@ + proxy_lines(proxies@).flatten();
                let whole = "  - name: "@ + quoted_text(g.name@) + "\n"@ + ("    type: \"select\"\n"@
                    + ("    proxies:\n"@ + proxy_lines(proxies@).flatten()) + use_block(
                    use_providers@,
                ));
                assert(whole =~= l + use_block(use_providers@));
                let y = mihomo_yaml(p);
                let k = choose|k: int| occurs_at(y, whole, k);
                assert(y.subrange(k, k + whole.len() as int) == whole);
                assert(y.subrange(k, k + l.len() as int) =~= y.subrange(
                    k,
                    k + whole.len() as int,
                ).subrange(0, l.len() as int));
                assert(whole.subrange(0, l.len() as int) =~= l);
                assert(occurs_at(y, l, k));
            }
        },
        _ => {},
    }
}

proof fn lemma_split_comma(x: Seq<char>, rest: Seq<char>)
    requires
        !x.contains(','),
    ensures
        split_all(x + seq![','] + rest, ',') == seq![x] + split_all(rest, ','),
        split_all(x, ',') == seq![x],
{
    let s = x + seq![','] + rest;
    assert forall|j: int| 0 <= j < x.len() implies #[trigger] s[j] != ',' by {
        assert(s[j] == x[j]);
        if x[j] == ',' {
            assert(x.contains(','));
        }
    }
    lemma_find_char(s, ',', x.len() as int);
    assert(s.take(x.len() as int) =~= x);
    assert(s.skip(x.len() + 1 as int) =~= rest);
    assert forall|j: int| 0 <= j < x.len() implies #[trigger] x[j] != ',' by {
        if x[j] == ',' {
            assert(x.contains(','));
        }
    }
    lemma_find_char(x, ',', x.len() as int);
}

/// A rule's text is its Mihomo fields joined by commas and reads back by splitting at them:
/// the rule type (`DOMAIN`, `DOMAIN-SUFFIX`, `GEOIP` or `MATCH`), the value it matches, the
/// policy it sends traffic to (`DIRECT`, `REJECT` or the group's name), and `no-resolve` for a
/// GEOIP rule that asks for it.
pub proof fn lemma_rule_fields(r: Rule)
    requires
        !policy_text(rule_policy(r)).contains(','),
        match r {
            Rule::Domain { value, .. } => !value@.contains(','),
            Rule::DomainSuffix { value, .. } => !value@.contains(','),
            Rule::GeoIp { country, .. } => !country@.contains(','),
            Rule::Match { .. } => true,
        },
    ensures
        policy_text(PolicyRef::Direct) == "DIRECT"@,
        policy_text(PolicyRef::Reject) == "REJECT"@,
        rule_policy(r) matches PolicyRef::Group(n) ==> policy_text(rule_policy(r)) == n@,
        split_all(rule_text(r), ',') == match r {
            Rule::Domain { value, policy } => seq!["DOMAIN"@, value@, policy_text(policy)],
            Rule::DomainSuffix { value, policy } => seq![
                "DOMAIN-SUFFIX"@,
                value@,
                policy_text(policy),
            ],
            Rule::GeoIp { country, policy, no_resolve } => seq![
                "GEOIP"@,
                country@,
                policy_text(policy),
            ] + if no_resolve {
                seq!["no-resolve"@]
            } else {
                Seq::empty()
            },
            Rule::Match { policy } => seq!["MATCH"@, policy_text(policy)],
        },
{
    reveal_strlit("DOMAIN,");
    reveal_strlit("DOMAIN");
    reveal_strlit("DOMAIN-SUFFIX,");
    reveal_strlit("DOMAIN-SUFFIX");
    reveal_strlit("GEOIP,");
    reveal_strlit("GEOIP");
    reveal_strlit("MATCH,");
    reveal_strlit("MATCH");
    reveal_strlit(",");
    reveal_strlit(",no-resolve");
    reveal_strlit("no-resolve");
    let p = policy_text(rule_policy(r));
    lemma_split_comma(p, Seq::empty());
    match r {
        Rule::Domain { value, policy } => {
            assert(!"DOMAIN"@.contains(','));
            lemma_split_comma(value@, p);
            lemma_split_comma("DOMAIN"@, value@ + seq![','] + p);
            assert(rule_text(r) =~= "DOMAIN"@ + seq![','] + (value@ + seq![','] + p));
        },
        Rule::DomainSuffix { value, policy } => {
            assert(!"DOMAIN-SUFFIX"@.contains(','));
            lemma_split_comma(value@, p);
            lemma_split_comma("DOMAIN-SUFFIX"@, value@ + seq![','] + p);
            assert(rule_text(r) =~= "DOMAIN-SUFFIX"@ + seq![','] + (value@ + seq![','] + p));
        },
        Rule::GeoIp { country, policy, no_resolve } => {
            assert(!"GEOIP"@.contains(','));
            assert(!"no-resolve"@.contains(','));
            lemma_split_comma("no-resolve"@, Seq::empty());
            let tail = if no_resolve {
                p + seq![','] + "no-resolve"@
            } else {
                p
            };
            lemma_split_comma(p, "no-resolve"@);
            lemma_split_comma(country@, tail);
            lemma_split_comma("GEOIP"@, country@ + seq![','] + tail);
            assert(rule_text(r) =~= "GEOIP"@ + seq![','] + (country@ + seq![','] + tail));
        },
        Rule::Match { policy } => {
            assert(!"MATCH"@.contains(','));
            lemma_split_comma("MATCH"@, p);
            assert(rule_text(r) =~= "MATCH"@ + seq![','] + p);
        },
    }
}

/// A rendered profile is the fixed header, the settings, then the `proxy-providers:`,
/// `proxy-groups:` and `rules:` sections in that order; under `rules:` stands one quoted line
/// per rule, in order, and every provider has its `url:` line.
pub proof fn lemma_yaml_layout(p: Profile)
    ensures
        mihomo_yaml(p) == yaml_header() + yaml_settings(p) + "proxy-providers:\n"@
            + providers_text(p.providers@) + "proxy-groups:\n"@ + groups_text(p.groups@)
            + "rules:\n"@ + rules_text(p.rules@),
        has_prefix(mihomo_yaml(p), yaml_header()),
        forall|i: int|
            0 <= i < p.rules@.len() ==> rules_text(p.rules@) == rules_text(p.rules@.take(i))
                + #[trigger] rule_line(p.rules@[i]) + rules_text(p.rules@.skip(i + 1)),
        forall|i: int|
            0 <= i < p.providers@.len() ==> contains_seq(
                providers_text(p.providers@),
                #[trigger] provider_url_line(p.providers@[i]),
            ),
{
    let y = mihomo_yaml(p);
    let rest = yaml_settings(p) + "proxy-providers:\n"@ + providers_text(p.providers@)
        + "proxy-groups:\n"@ + groups_text(p.groups@) + "rules:\n"@ + rules_text(p.rules@);
    assert(y =~= yaml_header() + rest);
    assert((yaml_header() + rest).take(yaml_header().len() as int) =~= yaml_header());
    assert forall|i: int| 0 <= i < p.rules@.len() implies rules_text(p.rules@) == rules_text(
        p.rules@.take(i),
    ) + #[trigger] rule_line(p.rules@[i]) + rules_text(p.rules@.skip(i + 1)) by {
        lemma_rule_at(p.rules@, i);
    }
    assert forall|i: int| 0 <= i < p.providers@.len() implies contains_seq(
        providers_text(p.providers@),
        #[trigger] provider_url_line(p.providers@[i]),
    ) by {
        lemma_provider_url_at(p.providers@, i);
    }
}

} // verus!
