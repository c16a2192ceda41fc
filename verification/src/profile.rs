//! The typed Relay profile: secret subscription URLs, names, providers, policy groups and
//! ordered rules, with the validation that every generated Mihomo profile passes.
use vstd::prelude::*;

use crate::text::{
    chars_of, contains_char, has_control, has_prefix, is_trimmed,
    is_trimmed_chars, no_control, starts_with, str_equal,
};
use core::fmt::Write;

verus! {

/// Longest subscription URL accepted, in bytes.
pub const MAX_SECRET_URL_BYTES: usize = 16384;

/// Longest provider or policy-group name accepted, in bytes.
pub const MAX_NAME_BYTES: usize = 128;

/// Longest rule value accepted, in bytes.
pub const MAX_RULE_VALUE_BYTES: usize = 1024;

#[verifier::external_type_specification]
#[verifier::external_body]
pub struct ExFormatter<'a>(core::fmt::Formatter<'a>);

#[verifier::external_type_specification]
#[verifier::external_body]
pub struct ExFmtError(core::fmt::Error);

/// The byte length of a string as `str::len` gives it.
pub open spec fn byte_len(s: Seq<char>) -> nat {
    (vstd::utf8::encode_utf8(s).len() as usize) as nat
}

pub open spec fn is_url_delimiter(c: char) -> bool {
    c == '/' || c == '?' || c == '#'
}

/// Where the authority of a URL remainder ends: its first `/`, `?` or `#`, else its end.
pub open spec fn authority_end(r: Seq<char>) -> nat
    decreases r.len(),
{
    if r.len() == 0 {
        0
    } else if is_url_delimiter(r[0]) {
        0
    } else {
        1 + authority_end(r.drop_first())
    }
}

/// The authority part of a URL after its scheme.
pub open spec fn authority(r: Seq<char>) -> Seq<char> {
    r.take(authority_end(r) as int)
}

/// A URL that starts with `scheme`, has no surrounding white space and no control character,
/// and whose authority is non-empty, holds no `@` and does not start with `:`.
pub open spec fn is_url_with_scheme(s: Seq<char>, scheme: Seq<char>) -> bool {
    &&& s.len() > 0
    &&& is_trimmed(s)
    &&& no_control(s)
    &&& has_prefix(s, scheme)
    &&& {
        let a = authority(s.skip(scheme.len() as int));
        a.len() > 0 && !a.contains('@') && a[0] != ':'
    }
}

pub open spec fn is_https_url(s: Seq<char>) -> bool {
    is_url_with_scheme(s, "https://"@)
}

pub open spec fn is_subscription_url(s: Seq<char>) -> bool {
    is_url_with_scheme(s, "https://"@) || is_url_with_scheme(s, "http://"@)
}

/// A non-empty value of at most `max_bytes` bytes with no surrounding white space and no
/// control character.
pub open spec fn is_plain_value(s: Seq<char>, max_bytes: nat) -> bool {
    s.len() > 0 && byte_len(s) <= max_bytes && is_trimmed(s) && no_control(s)
}

pub open spec fn is_rule_value(s: Seq<char>) -> bool {
    is_plain_value(s, MAX_RULE_VALUE_BYTES as nat) && !s.contains(',')
}

/// A `..` path segment starts at `i`.
pub open spec fn parent_segment_at(s: Seq<char>, i: int) -> bool {
    &&& 0 <= i
    &&& i + 2 <= s.len()
    &&& (i == 0 || s[i - 1] == '/')
    &&& s[i] == '.'
    &&& s[i + 1] == '.'
    &&& (i + 2 == s.len() || s[i + 2] == '/')
}

/// A non-empty relative path without control characters and without `..` segments, read by
/// the path components of macOS and Linux: `/` separates segments and roots a path that starts
/// with it, and every other character, the backslash and `:` among them, is part of a segment.
pub open spec fn is_safe_relative_path(s: Seq<char>) -> bool {
    &&& s.len() > 0
    &&& no_control(s)
    &&& s[0] != '/'
    &&& forall|i: int| !parent_segment_at(s, i)
}

/// A subscription URL whose text never enters diagnostics.
#[derive(PartialEq, Eq)]
pub struct SecretUrl(String);

impl SecretUrl {
    #[verifier::type_invariant]
    spec fn url_is_valid(self) -> bool {
        is_subscription_url(self.0@) && byte_len(self.0@) <= MAX_SECRET_URL_BYTES
    }
}

impl View for SecretUrl {
    type V = Seq<char>;

    closed spec fn view(&self) -> Seq<char> {
        self.0@
    }
}

impl Clone for SecretUrl {
    fn clone(&self) -> (r: Self)
        ensures
            r@ == self@,
    {
        proof {
            use_type_invariant(self);
        }
        SecretUrl(self.0.clone())
    }
}

impl core::fmt::Debug for SecretUrl {
    /// Writes only a fixed redacted marker, never the URL.
    #[verifier::external_body]
    fn fmt(&self, formatter: &mut core::fmt::Formatter<'_>) -> core::fmt::Result {
        formatter.write_str("SecretUrl(<redacted>)")
    }
}

impl SecretUrl {
    /// Parses an HTTPS subscription URL while keeping its value out of diagnostics.
    pub fn parse_https(input: &str) -> (r: Result<Self, ProfileError>)
        ensures
            r is Ok <==> is_https_url(input@) && byte_len(input@) <= MAX_SECRET_URL_BYTES,
            r matches Ok(url) ==> url@ == input@,
            r matches Err(e) ==> e == ProfileError::InvalidUrl,
    {
        let chars = chars_of(input);
        if !check_https_url(chars.as_slice()) || input.len() > MAX_SECRET_URL_BYTES {
            return Err(ProfileError::InvalidUrl);
        }
        Ok(SecretUrl(input.to_owned()))
    }

    /// Parses an HTTP or HTTPS Mihomo proxy-provider URL while keeping its value out of
    /// diagnostics.
    pub fn parse_subscription(input: &str) -> (r: Result<Self, ProfileError>)
        ensures
            r is Ok <==> is_subscription_url(input@) && byte_len(input@)
                <= MAX_SECRET_URL_BYTES,
            r matches Ok(url) ==> url@ == input@,
            r matches Err(e) ==> e == ProfileError::InvalidUrl,
    {
        let chars = chars_of(input);
        if !check_subscription_url(chars.as_slice()) || input.len() > MAX_SECRET_URL_BYTES {
            return Err(ProfileError::InvalidUrl);
        }
        Ok(SecretUrl(input.to_owned()))
    }

    /// Whether the URL uses HTTPS.
    pub fn is_https(&self) -> (r: bool)
        ensures
            r == has_prefix(self@, "https://"@),
    {
        let chars = chars_of(self.0.as_str());
        let scheme = chars_of("https://");
        starts_with(chars.as_slice(), scheme.as_slice())
    }

    /// The secret text itself, for the renderer and the source stores of this crate.
    pub(crate) fn expose(&self) -> (r: &str)
        ensures
            r@ == self@,
            is_subscription_url(self@),
            byte_len(self@) <= MAX_SECRET_URL_BYTES,
    {
        proof {
            use_type_invariant(self);
        }
        self.0.as_str()
    }
}

/// A provider or policy-group name that is safe inside Mihomo rule scalars.
#[derive(Debug, PartialEq, Eq, Hash)]
pub struct Name(String);

impl View for Name {
    type V = Seq<char>;

    closed spec fn view(&self) -> Seq<char> {
        self.0@
    }
}

impl Clone for Name {
    fn clone(&self) -> (r: Self)
        ensures
            r@ == self@,
    {
        proof {
            use_type_invariant(self);
        }
        Name(self.0.clone())
    }
}

pub open spec fn is_valid_name(s: Seq<char>) -> bool {
    is_plain_value(s, MAX_NAME_BYTES as nat) && !s.contains(',')
}

impl Name {
    /// Creates a provider or policy-group name safe for Mihomo rule scalars.
    pub fn parse(input: &str) -> (r: Result<Self, ProfileError>)
        ensures
            r is Ok <==> is_valid_name(input@),
            r matches Ok(name) ==> name@ == input@,
            r matches Err(e) ==> e == ProfileError::InvalidName,
    {
        let chars = chars_of(input);
        if !plain_value(input, chars.as_slice(), MAX_NAME_BYTES) || contains_char(
            chars.as_slice(),
            ',',
        ) {
            return Err(ProfileError::InvalidName);
        }
        Ok(Name(input.to_owned()))
    }

    pub fn as_str(&self) -> (r: &str)
        ensures
            r@ == self@,
    {
        self.0.as_str()
    }

}

impl Name {
    #[verifier::type_invariant]
    spec fn name_is_valid(self) -> bool {
        is_valid_name(self.0@)
    }

    /// Every name holds a valid name text.
    pub fn valid_text(&self) -> (r: &str)
        ensures
            r@ == self@,
            is_valid_name(self@),
    {
        proof {
            use_type_invariant(self);
        }
        self.0.as_str()
    }
}

#[derive(Clone, Copy, Debug, PartialEq, Eq, Structural)]
pub enum LogLevel {
    Silent,
    Warning,
}

#[derive(Clone, Debug, PartialEq, Eq)]
pub struct ProxyProvider {
    pub name: Name,
    pub url: SecretUrl,
    pub interval_secs: u32,
    pub path: String,
    pub health_check: HealthCheck,
}

#[derive(Clone, Debug, PartialEq, Eq)]
pub struct HealthCheck {
    pub enabled: bool,
    pub interval_secs: u32,
    pub url: String,
}

#[derive(Clone, Debug, PartialEq, Eq)]
pub struct PolicyGroup {
    pub name: Name,
    pub kind: PolicyGroupKind,
}

#[derive(Clone, Debug, PartialEq, Eq)]
pub enum PolicyGroupKind {
    Select { proxies: Vec<PolicyRef>, use_providers: Vec<Name> },
    UrlTest { use_providers: Vec<Name>, url: String, interval_secs: u32 },
}

#[derive(Clone, Debug, PartialEq, Eq, Hash)]
pub enum PolicyRef {
    Direct,
    Reject,
    Group(Name),
}

#[derive(Clone, Debug, PartialEq, Eq)]
pub enum Rule {
    Domain { value: String, policy: PolicyRef },
    DomainSuffix { value: String, policy: PolicyRef },
    GeoIp { country: String, policy: PolicyRef, no_resolve: bool },
    Match { policy: PolicyRef },
}

/// A validation error category; none of them embeds subscription data.
#[derive(Clone, Debug, PartialEq, Eq)]
pub enum ProfileError {
    InvalidUrl,
    InvalidName,
    InvalidValue(&'static str),
    DuplicateName,
    DanglingReference,
    MissingTerminalMatch,
}

impl ProfileError {
    /// The user-facing message of this error.
    pub fn message(&self) -> (r: String)
        ensures
            r@ == match *self {
                ProfileError::InvalidUrl => "secret URL is invalid"@,
                ProfileError::InvalidName => "profile name is invalid"@,
                ProfileError::InvalidValue(label) => "profile "@ + label@ + " is invalid"@,
                ProfileError::DuplicateName => "profile names must be unique"@,
                ProfileError::DanglingReference => "profile contains a dangling reference"@,
                ProfileError::MissingTerminalMatch => "profile rules must end with exactly one MATCH"@,
            },
    {
        match self {
            ProfileError::InvalidUrl => "secret URL is invalid".to_owned(),
            ProfileError::InvalidName => "profile name is invalid".to_owned(),
            ProfileError::InvalidValue(label) => {
                let mut out = "profile ".to_owned();
                out.append(label);
                out.append(" is invalid");
                out
            },
            ProfileError::DuplicateName => "profile names must be unique".to_owned(),
            ProfileError::DanglingReference => "profile contains a dangling reference".to_owned(),
            ProfileError::MissingTerminalMatch => {
                "profile rules must end with exactly one MATCH".to_owned()
            },
        }
    }
}

#[verifier::external_type_specification]
#[verifier::external_body]
pub struct ExIoError(std::io::Error);

/// Why a private profile write was refused or failed.
#[derive(Debug)]
pub enum WriteError {
    InvalidFileName,
    InvalidRuntimePath,
    RuntimeDirSymlink,
    RuntimeDirNotDirectory,
    FinalPathSymlink,
    FinalPathNotFile,
    Io(std::io::Error),
}

/// The text that `Display` writes for an I/O error. Nothing is stated of it: an OS error's
/// text depends on the process locale and a custom error's on its own `Display`; a `Display`
/// that fails leaves the text written so far.
#[verifier::external_body]
fn io_error_text(error: &std::io::Error) -> String {
    let mut text = String::new();
    let _ = write!(text, "{error}");
    text
}

impl WriteError {
    /// The user-facing message of this error.
    pub fn message(&self) -> (r: String)
        ensures
            match *self {
                WriteError::InvalidFileName => r@ == "generated profile file name is invalid"@,
                WriteError::InvalidRuntimePath => r@ == "profile runtime directory path is invalid"@,
                WriteError::RuntimeDirSymlink => r@ == "profile runtime directory cannot be a symlink"@,
                WriteError::RuntimeDirNotDirectory => r@ == "profile runtime path must be a directory"@,
                WriteError::FinalPathSymlink => r@ == "generated profile path cannot be a symlink"@,
                WriteError::FinalPathNotFile => r@ == "generated profile path must be a regular file"@,
                WriteError::Io(_) => has_prefix(r@, "private profile write failed: "@),
            },
    {
        match self {
            WriteError::InvalidFileName => "generated profile file name is invalid".to_owned(),
            WriteError::InvalidRuntimePath => "profile runtime directory path is invalid".to_owned(),
            WriteError::RuntimeDirSymlink => {
                "profile runtime directory cannot be a symlink".to_owned()
            },
            WriteError::RuntimeDirNotDirectory => {
                "profile runtime path must be a directory".to_owned()
            },
            WriteError::FinalPathSymlink => "generated profile path cannot be a symlink".to_owned(),
            WriteError::FinalPathNotFile => {
                "generated profile path must be a regular file".to_owned()
            },
            WriteError::Io(source) => {
                let mut out = "private profile write failed: ".to_owned();
                let ghost prefix = out@;
                let text = io_error_text(source);
                out.append(text.as_str());
                assert(out@.take(prefix.len() as int) =~= prefix);
                out
            },
        }
    }
}


proof fn lemma_authority_end(r: Seq<char>, k: int)
    requires
        0 <= k <= r.len(),
        forall|j: int| 0 <= j < k ==> !is_url_delimiter(#[trigger] r[j]),
        k == r.len() || is_url_delimiter(r[k]),
    ensures
        authority_end(r) == k,
    decreases k,
{
    if k > 0 {
        assert(!is_url_delimiter(r[0]));
        let t = r.drop_first();
        assert forall|j: int| 0 <= j < k - 1 implies !is_url_delimiter(#[trigger] t[j]) by {
            assert(t[j] == r[j + 1]);
        }
        if k - 1 < t.len() {
            assert(t[k - 1] == r[k]);
        }
        lemma_authority_end(t, k - 1);
    }
}

/// `is_url_with_scheme` on characters.
pub fn check_url_with_scheme(v: &[char], scheme: &[char]) -> (r: bool)
    ensures
        r == is_url_with_scheme(v@, scheme@),
{
    if v.len() == 0 || !is_trimmed_chars(v) || has_control(v) || !starts_with(v, scheme) {
        return false;
    }
    let k = scheme.len();
    let ghost rest = v@.skip(k as int);
    let mut e: usize = k;
    while e < v.len() && !(v[e] == '/' || v[e] == '?' || v[e] == '#')
        invariant
            k <= e <= v.len(),
            rest == v@.skip(k as int),
            forall|j: int| k <= j < e ==> !is_url_delimiter(#[trigger] v@[j]),
        decreases v.len() - e,
    {
        e = e + 1;
    }
    proof {
        assert forall|j: int| 0 <= j < e - k implies !is_url_delimiter(#[trigger] rest[j]) by {
            assert(rest[j] == v@[j + k]);
        }
        if e < v.len() {
            assert(rest[e - k] == v@[e as int]);
        }
        lemma_authority_end(rest, e - k);
    }
    let ghost a = authority(rest);
    assert(a == v@.subrange(k as int, e as int));
    if e == k {
        return false;
    }
    let mut i: usize = k;
    while i < e
        invariant
            k <= i <= e <= v.len(),
            a == v@.subrange(k as int, e as int),
            a == authority(v@.skip(scheme@.len() as int)),
            k == scheme@.len(),
            v@.len() > 0,
            is_trimmed(v@),
            no_control(v@),
            has_prefix(v@, scheme@),
            forall|j: int| k <= j < i ==> v@[j] != '@',
        decreases e - i,
    {
        if v[i] == '@' {
            assert(a[i - k] == '@');
            return false;
        }
        i = i + 1;
    }
    assert(!a.contains('@')) by {
        if a.contains('@') {
            let j = choose|j: int| 0 <= j < a.len() && a[j] == '@';
            assert(v@[j + k] == '@');
        }
    }
    v[k] != ':'
}

pub fn check_https_url(v: &[char]) -> (r: bool)
    ensures
        r == is_https_url(v@),
{
    let scheme = chars_of("https://");
    check_url_with_scheme(v, scheme.as_slice())
}

pub fn check_subscription_url(v: &[char]) -> (r: bool)
    ensures
        r == is_subscription_url(v@),
{
    let https = chars_of("https://");
    let http = chars_of("http://");
    check_url_with_scheme(v, https.as_slice()) || check_url_with_scheme(v, http.as_slice())
}

/// `is_plain_value` for a string and its characters.
pub fn plain_value(value: &str, v: &[char], max_bytes: usize) -> (r: bool)
    requires
        v@ == value@,
    ensures
        r == is_plain_value(value@, max_bytes as nat),
{
    v.len() > 0 && value.len() <= max_bytes && is_trimmed_chars(v) && !has_control(v)
}

pub fn rule_value(value: &str) -> (r: bool)
    ensures
        r == is_rule_value(value@),
{
    let v = chars_of(value);
    plain_value(value, v.as_slice(), MAX_RULE_VALUE_BYTES) && !contains_char(v.as_slice(), ',')
}

pub fn safe_relative_path(value: &str) -> (r: bool)
    ensures
        r == is_safe_relative_path(value@),
{
    let v = chars_of(value);
    if v.len() == 0 || has_control(v.as_slice()) || v[0] == '/' {
        return false;
    }
    let mut i: usize = 0;
    while i < v.len()
        invariant
            i <= v.len(),
            v@ == value@,
            forall|j: int| 0 <= j < i ==> !parent_segment_at(v@, j),
        decreases v.len() - i,
    {
        if (i == 0 || v[i - 1] == '/') && v.len() - i >= 2 && v[i] == '.' && v[i + 1] == '.' && (i
            + 2 == v.len() || v[i + 2] == '/') {
            assert(parent_segment_at(v@, i as int));
            return false;
        }
        i = i + 1;
    }
    assert forall|j: int| !parent_segment_at(v@, j) by {
        if 0 <= j && j < v.len() {
        }
    }
    true
}


/// The Relay profile schema that is compiled to Mihomo YAML.
#[derive(Clone, Debug, PartialEq, Eq)]
pub struct Profile {
    pub mixed_port: u16,
    pub log_level: LogLevel,
    pub store_selected: bool,
    pub providers: Vec<ProxyProvider>,
    pub groups: Vec<PolicyGroup>,
    pub rules: Vec<Rule>,
}

/// The first error that `check` finds when it is applied, in order, to each element of `s`
/// together with the elements before it.
pub open spec fn first_error<T>(
    s: Seq<T>,
    check: spec_fn(Seq<T>, T) -> Option<ProfileError>,
) -> Option<ProfileError>
    decreases s.len(),
{
    if s.len() == 0 {
        None
    } else {
        match first_error(s.drop_last(), check) {
            Some(e) => Some(e),
            None => check(s.drop_last(), s.last()),
        }
    }
}

pub proof fn lemma_first_error_step<T>(
    s: Seq<T>,
    check: spec_fn(Seq<T>, T) -> Option<ProfileError>,
    i: int,
)
    requires
        0 <= i < s.len(),
    ensures
        first_error(s.take(i + 1), check) == match first_error(s.take(i), check) {
            Some(e) => Some(e),
            None => check(s.take(i), s[i]),
        },
{
    assert(s.take(i + 1).drop_last() == s.take(i));
}

pub proof fn lemma_first_error_prefix<T>(
    s: Seq<T>,
    check: spec_fn(Seq<T>, T) -> Option<ProfileError>,
    k: int,
)
    requires
        0 <= k <= s.len(),
        first_error(s.take(k), check) is Some,
    ensures
        first_error(s, check) == first_error(s.take(k), check),
    decreases s.len() - k,
{
    if k < s.len() {
        lemma_first_error_step(s, check, k);
        lemma_first_error_prefix(s, check, k + 1);
    } else {
        assert(s.take(k) == s);
    }
}

pub open spec fn provider_named(n: Seq<char>, ps: Seq<ProxyProvider>) -> bool {
    exists|j: int| 0 <= j < ps.len() && (#[trigger] ps[j]).name@ == n
}

pub open spec fn group_named(n: Seq<char>, gs: Seq<PolicyGroup>) -> bool {
    exists|j: int| 0 <= j < gs.len() && (#[trigger] gs[j]).name@ == n
}

/// The interval, path and health-check values of a provider are usable.
pub open spec fn provider_values_ok(p: ProxyProvider) -> bool {
    &&& p.interval_secs != 0
    &&& !(p.health_check.enabled && p.health_check.interval_secs == 0)
    &&& is_safe_relative_path(p.path@)
    &&& is_https_url(p.health_check.url@)
}

pub open spec fn provider_check() -> spec_fn(Seq<ProxyProvider>, ProxyProvider) -> Option<
    ProfileError,
> {
    |before: Seq<ProxyProvider>, p: ProxyProvider|
        if provider_named(p.name@, before) {
            Some(ProfileError::DuplicateName)
        } else if !provider_values_ok(p) {
            Some(ProfileError::InvalidValue("proxy provider"))
        } else {
            None
        }
}

pub open spec fn is_reserved_policy_name(n: Seq<char>) -> bool {
    n == "DIRECT"@ || n == "REJECT"@
}

pub open spec fn group_name_check() -> spec_fn(Seq<PolicyGroup>, PolicyGroup) -> Option<
    ProfileError,
> {
    |before: Seq<PolicyGroup>, g: PolicyGroup|
        if is_reserved_policy_name(g.name@) || group_named(g.name@, before) {
            Some(ProfileError::DuplicateName)
        } else {
            None
        }
}

pub open spec fn policy_ref_ok(r: PolicyRef, gs: Seq<PolicyGroup>) -> bool {
    match r {
        PolicyRef::Group(n) => group_named(n@, gs),
        _ => true,
    }
}

pub open spec fn policy_refs_ok(rs: Seq<PolicyRef>, gs: Seq<PolicyGroup>) -> bool {
    forall|i: int| 0 <= i < rs.len() ==> policy_ref_ok(#[trigger] rs[i], gs)
}

pub open spec fn provider_refs_ok(ns: Seq<Name>, ps: Seq<ProxyProvider>) -> bool {
    forall|i: int| 0 <= i < ns.len() ==> provider_named((#[trigger] ns[i])@, ps)
}

pub open spec fn group_kind_error(
    g: PolicyGroup,
    gs: Seq<PolicyGroup>,
    ps: Seq<ProxyProvider>,
) -> Option<ProfileError> {
    match g.kind {
        PolicyGroupKind::Select { proxies, use_providers } => {
            if proxies@.len() == 0 && use_providers@.len() == 0 {
                Some(ProfileError::InvalidValue("select group"))
            } else if !policy_refs_ok(proxies@, gs) || !provider_refs_ok(use_providers@, ps) {
                Some(ProfileError::DanglingReference)
            } else {
                None
            }
        },
        PolicyGroupKind::UrlTest { use_providers, url, interval_secs } => {
            if use_providers@.len() == 0 || interval_secs == 0 || !is_https_url(url@) {
                Some(ProfileError::InvalidValue("url-test group"))
            } else if !provider_refs_ok(use_providers@, ps) {
                Some(ProfileError::DanglingReference)
            } else {
                None
            }
        },
    }
}

pub open spec fn group_kind_check(gs: Seq<PolicyGroup>, ps: Seq<ProxyProvider>) -> spec_fn(
    Seq<PolicyGroup>,
    PolicyGroup,
) -> Option<ProfileError> {
    |before: Seq<PolicyGroup>, g: PolicyGroup| group_kind_error(g, gs, ps)
}

pub open spec fn rule_error(r: Rule, index: int, len: int, gs: Seq<PolicyGroup>) -> Option<
    ProfileError,
> {
    if r is Match && index + 1 != len {
        Some(ProfileError::MissingTerminalMatch)
    } else {
        match r {
            Rule::Domain { value, policy } => {
                if !is_rule_value(value@) {
                    Some(ProfileError::InvalidValue("domain rule"))
                } else if !policy_ref_ok(policy, gs) {
                    Some(ProfileError::DanglingReference)
                } else {
                    None
                }
            },
            Rule::DomainSuffix { value, policy } => {
                if !is_rule_value(value@) {
                    Some(ProfileError::InvalidValue("domain rule"))
                } else if !policy_ref_ok(policy, gs) {
                    Some(ProfileError::DanglingReference)
                } else {
                    None
                }
            },
            Rule::GeoIp { country, policy, no_resolve } => {
                if !is_rule_value(country@) {
                    Some(ProfileError::InvalidValue("GEOIP rule"))
                } else if !policy_ref_ok(policy, gs) {
                    Some(ProfileError::DanglingReference)
                } else {
                    None
                }
            },
            Rule::Match { policy } => {
                if !policy_ref_ok(policy, gs) {
                    Some(ProfileError::DanglingReference)
                } else {
                    None
                }
            },
        }
    }
}

pub open spec fn rule_check(len: int, gs: Seq<PolicyGroup>) -> spec_fn(Seq<Rule>, Rule) -> Option<
    ProfileError,
> {
    |before: Seq<Rule>, r: Rule| rule_error(r, before.len() as int, len, gs)
}

/// The rules end with a `MATCH` rule.
pub open spec fn ends_with_match(rs: Seq<Rule>) -> bool {
    rs.len() > 0 && rs.last() is Match
}

/// The error that validation reports for `p`, checking in order: the mixed port, the providers,
/// the group names, the group kinds, the terminal `MATCH`, then each rule.
pub open spec fn profile_error(p: Profile) -> Option<ProfileError> {
    let ps = p.providers@;
    let gs = p.groups@;
    let rs = p.rules@;
    if p.mixed_port == 0 {
        Some(ProfileError::InvalidValue("mixed port"))
    } else if first_error(ps, provider_check()) is Some {
        first_error(ps, provider_check())
    } else if first_error(gs, group_name_check()) is Some {
        first_error(gs, group_name_check())
    } else if first_error(gs, group_kind_check(gs, ps)) is Some {
        first_error(gs, group_kind_check(gs, ps))
    } else if !ends_with_match(rs) {
        Some(ProfileError::MissingTerminalMatch)
    } else {
        first_error(rs, rule_check(rs.len() as int, gs))
    }
}

proof fn lemma_no_first_error<T>(s: Seq<T>, check: spec_fn(Seq<T>, T) -> Option<ProfileError>)
    requires
        first_error(s, check) is None,
    ensures
        forall|i: int| 0 <= i < s.len() ==> (#[trigger] check(s.take(i), s[i])) is None,
    decreases s.len(),
{
    if s.len() > 0 {
        let front = s.drop_last();
        lemma_no_first_error(front, check);
        assert forall|i: int| 0 <= i < s.len() implies (#[trigger] check(s.take(i), s[i])) is None by {
            if i < s.len() - 1 {
                assert(front.take(i) == s.take(i));
                assert(front[i] == s[i]);
                assert(check(front.take(i), front[i]) is None);
            } else {
                assert(s.take(i) == front);
            }
        }
    }
}

/// The policy that a rule sends traffic to.
pub open spec fn rule_policy(r: Rule) -> PolicyRef {
    match r {
        Rule::Domain { policy, .. } => policy,
        Rule::DomainSuffix { policy, .. } => policy,
        Rule::GeoIp { policy, .. } => policy,
        Rule::Match { policy } => policy,
    }
}

/// What every profile that validates satisfies: its mixed port is set; its providers have
/// distinct names, non-zero intervals, a health check that runs at a non-zero interval when
/// enabled, a relative path that stays inside the working directory and an HTTPS check URL; its
/// groups have distinct names other than DIRECT and REJECT, a select group lists proxies or
/// providers, a url-test group lists providers and has a non-zero interval and an HTTPS test
/// URL, and every member and provider they name exists; every rule sends traffic to a policy
/// that exists; and exactly one MATCH rule ends the rules.
pub proof fn lemma_valid_profile(p: Profile)
    requires
        profile_error(p) is None,
    ensures
        p.mixed_port > 0,
        forall|i: int|
            0 <= i < p.providers@.len() ==> {
                let pv = #[trigger] p.providers@[i];
                &&& pv.interval_secs > 0
                &&& (pv.health_check.enabled ==> pv.health_check.interval_secs > 0)
                &&& is_safe_relative_path(pv.path@)
                &&& is_https_url(pv.health_check.url@)
            },
        forall|i: int, j: int|
            0 <= i < j < p.providers@.len() ==> (#[trigger] p.providers@[i]).name@ != (
            #[trigger] p.providers@[j]).name@,
        forall|i: int, j: int|
            0 <= i < j < p.groups@.len() ==> (#[trigger] p.groups@[i]).name@ != (
            #[trigger] p.groups@[j]).name@,
        forall|i: int|
            0 <= i < p.groups@.len() ==> {
                let g = #[trigger] p.groups@[i];
                &&& g.name@ != "DIRECT"@
                &&& g.name@ != "REJECT"@
                &&& match g.kind {
                    PolicyGroupKind::Select { proxies, use_providers } => {
                        &&& proxies@.len() > 0 || use_providers@.len() > 0
                        &&& forall|k: int|
                            0 <= k < proxies@.len() ==> (#[trigger] proxies@[k] matches PolicyRef::Group(
                                n,
                            ) ==> group_named(n@, p.groups@))
                        &&& forall|k: int|
                            0 <= k < use_providers@.len() ==> provider_named(
                                (#[trigger] use_providers@[k])@,
                                p.providers@,
                            )
                    },
                    PolicyGroupKind::UrlTest { use_providers, url, interval_secs } => {
                        &&& use_providers@.len() > 0
                        &&& interval_secs > 0
                        &&& is_https_url(url@)
                        &&& forall|k: int|
                            0 <= k < use_providers@.len() ==> provider_named(
                                (#[trigger] use_providers@[k])@,
                                p.providers@,
                            )
                    },
                }
            },
        forall|i: int|
            0 <= i < p.rules@.len() ==> (rule_policy(#[trigger] p.rules@[i]) matches PolicyRef::Group(
                n,
            ) ==> group_named(n@, p.groups@)),
        p.rules@.len() > 0,
        p.rules@.last() is Match,
        forall|i: int| 0 <= i < p.rules@.len() - 1 ==> !((#[trigger] p.rules@[i]) is Match),
{
    let ps = p.providers@;
    let gs = p.groups@;
    let rs = p.rules@;
    lemma_no_first_error(ps, provider_check());
    lemma_no_first_error(gs, group_name_check());
    lemma_no_first_error(gs, group_kind_check(gs, ps));
    lemma_no_first_error(rs, rule_check(rs.len() as int, gs));
    assert forall|i: int| 0 <= i < ps.len() implies provider_values_ok(#[trigger] ps[i]) by {
        assert((provider_check())(ps.take(i), ps[i]) is None);
    }
    assert forall|i: int, j: int| 0 <= i < j < ps.len() implies (#[trigger] ps[i]).name@ != (
    #[trigger] ps[j]).name@ by {
        assert((provider_check())(ps.take(j), ps[j]) is None);
        assert(ps.take(j)[i] == ps[i]);
    }
    assert forall|i: int, j: int| 0 <= i < j < gs.len() implies (#[trigger] gs[i]).name@ != (
    #[trigger] gs[j]).name@ by {
        assert((group_name_check())(gs.take(j), gs[j]) is None);
        assert(gs.take(j)[i] == gs[i]);
    }
    assert forall|i: int| 0 <= i < gs.len() implies !is_reserved_policy_name((#[trigger] gs[i]).name@)
        && group_kind_error(gs[i], gs, ps) is None by {
        assert((group_name_check())(gs.take(i), gs[i]) is None);
        assert((group_kind_check(gs, ps))(gs.take(i), gs[i]) is None);
    }
    assert forall|i: int| 0 <= i < rs.len() implies rule_error(#[trigger] rs[i], i, rs.len() as int, gs)
        is None by {
        assert((rule_check(rs.len() as int, gs))(rs.take(i), rs[i]) is None);
    }
    assert forall|i: int| 0 <= i < rs.len() implies (rule_policy(#[trigger] rs[i]) matches PolicyRef::Group(
        n,
    ) ==> group_named(n@, gs)) by {
        assert(rule_error(rs[i], i, rs.len() as int, gs) is None);
    }
    assert forall|i: int| 0 <= i < rs.len() - 1 implies !((#[trigger] rs[i]) is Match) by {
        assert(rule_error(rs[i], i, rs.len() as int, gs) is None);
    }
}

pub open spec fn as_unit_result(e: Option<ProfileError>) -> Result<(), ProfileError> {
    match e {
        None => Ok(()),
        Some(e) => Err(e),
    }
}

pub fn names_equal(a: &Name, b: &Name) -> (r: bool)
    ensures
        r == (a@ == b@),
{
    str_equal(a.as_str(), b.as_str())
}

/// Whether one of the first `upto` providers is named `n`.
fn provider_known(n: &Name, ps: &[ProxyProvider], upto: usize) -> (r: bool)
    requires
        upto <= ps.len(),
    ensures
        r == provider_named(n@, ps@.take(upto as int)),
{
    let mut i: usize = 0;
    while i < upto
        invariant
            i <= upto <= ps.len(),
            forall|j: int| 0 <= j < i ==> (#[trigger] ps@[j]).name@ != n@,
        decreases upto - i,
    {
        if names_equal(&ps[i].name, n) {
            assert(ps@.take(upto as int)[i as int] == ps@[i as int]);
            return true;
        }
        i = i + 1;
    }
    assert forall|j: int| 0 <= j < upto implies (#[trigger] ps@.take(upto as int)[j]).name@ != n@ by {
        assert(ps@.take(upto as int)[j] == ps@[j]);
    }
    false
}

/// Whether one of the first `upto` groups is named `n`.
fn group_known(n: &Name, gs: &[PolicyGroup], upto: usize) -> (r: bool)
    requires
        upto <= gs.len(),
    ensures
        r == group_named(n@, gs@.take(upto as int)),
{
    let mut i: usize = 0;
    while i < upto
        invariant
            i <= upto <= gs.len(),
            forall|j: int| 0 <= j < i ==> (#[trigger] gs@[j]).name@ != n@,
        decreases upto - i,
    {
        if names_equal(&gs[i].name, n) {
            assert(gs@.take(upto as int)[i as int] == gs@[i as int]);
            return true;
        }
        i = i + 1;
    }
    assert forall|j: int| 0 <= j < upto implies (#[trigger] gs@.take(upto as int)[j]).name@ != n@ by {
        assert(gs@.take(upto as int)[j] == gs@[j]);
    }
    false
}

/// Checks that a policy reference names a known group.
fn validate_policy_ref(policy: &PolicyRef, groups: &[PolicyGroup]) -> (r: Result<(), ProfileError>)
    ensures
        r is Ok <==> policy_ref_ok(*policy, groups@),
        r matches Err(e) ==> e == ProfileError::DanglingReference,
{
    if let PolicyRef::Group(name) = policy {
        let known = group_known(name, groups, groups.len());
        assert(groups@.take(groups.len() as int) == groups@);
        if !known {
            return Err(ProfileError::DanglingReference);
        }
    }
    Ok(())
}

/// Checks that every policy reference names a known group.
fn validate_policy_refs(policies: &[PolicyRef], groups: &[PolicyGroup]) -> (r: Result<
    (),
    ProfileError,
>)
    ensures
        r is Ok <==> policy_refs_ok(policies@, groups@),
        r matches Err(e) ==> e == ProfileError::DanglingReference,
{
    let mut i: usize = 0;
    while i < policies.len()
        invariant
            i <= policies.len(),
            forall|j: int| 0 <= j < i ==> policy_ref_ok(#[trigger] policies@[j], groups@),
        decreases policies.len() - i,
    {
        validate_policy_ref(&policies[i], groups)?;
        i = i + 1;
    }
    Ok(())
}

/// Checks that every provider reference names a known provider.
fn validate_provider_refs(providers: &[Name], known: &[ProxyProvider]) -> (r: Result<
    (),
    ProfileError,
>)
    ensures
        r is Ok <==> provider_refs_ok(providers@, known@),
        r matches Err(e) ==> e == ProfileError::DanglingReference,
{
    assert(known@.take(known.len() as int) == known@);
    let mut i: usize = 0;
    while i < providers.len()
        invariant
            i <= providers.len(),
            known@.take(known.len() as int) == known@,
            forall|j: int| 0 <= j < i ==> provider_named((#[trigger] providers@[j])@, known@),
        decreases providers.len() - i,
    {
        if !provider_known(&providers[i], known, known.len()) {
            return Err(ProfileError::DanglingReference);
        }
        i = i + 1;
    }
    Ok(())
}

fn is_reserved_name(name: &Name) -> (r: bool)
    ensures
        r == is_reserved_policy_name(name@),
{
    str_equal(name.as_str(), "DIRECT") || str_equal(name.as_str(), "REJECT")
}

fn provider_values_valid(p: &ProxyProvider) -> (r: bool)
    ensures
        r == provider_values_ok(*p),
{
    let hc_url = chars_of(p.health_check.url.as_str());
    !(p.interval_secs == 0 || (p.health_check.enabled && p.health_check.interval_secs == 0)
        || !safe_relative_path(p.path.as_str()) || !check_https_url(hc_url.as_slice()))
}

fn check_group_kind(g: &PolicyGroup, groups: &[PolicyGroup], providers: &[ProxyProvider]) -> (r:
    Result<(), ProfileError>)
    ensures
        r == as_unit_result(group_kind_error(*g, groups@, providers@)),
{
    match &g.kind {
        PolicyGroupKind::Select { proxies, use_providers } => {
            if proxies.len() == 0 && use_providers.len() == 0 {
                return Err(ProfileError::InvalidValue("select group"));
            }
            validate_policy_refs(proxies.as_slice(), groups)?;
            validate_provider_refs(use_providers.as_slice(), providers)?;
        },
        PolicyGroupKind::UrlTest { use_providers, url, interval_secs } => {
            let url_chars = chars_of(url.as_str());
            if use_providers.len() == 0 || *interval_secs == 0 || !check_https_url(
                url_chars.as_slice(),
            ) {
                return Err(ProfileError::InvalidValue("url-test group"));
            }
            validate_provider_refs(use_providers.as_slice(), providers)?;
        },
    }
    Ok(())
}

fn check_rule(rule: &Rule, index: usize, len: usize, groups: &[PolicyGroup]) -> (r: Result<
    (),
    ProfileError,
>)
    requires
        index < len,
    ensures
        r == as_unit_result(rule_error(*rule, index as int, len as int, groups@)),
{
    let (value, policy, label) = match rule {
        Rule::Match { policy } => {
            if index + 1 != len {
                return Err(ProfileError::MissingTerminalMatch);
            }
            let checked = validate_policy_ref(policy, groups);
            proof {
                lemma_unit_result(checked);
            }
            return checked;
        },
        Rule::Domain { value, policy } => (value, policy, "domain rule"),
        Rule::DomainSuffix { value, policy } => (value, policy, "domain rule"),
        Rule::GeoIp { country, policy, .. } => (country, policy, "GEOIP rule"),
    };
    if !rule_value(value.as_str()) {
        return Err(ProfileError::InvalidValue(label));
    }
    let checked = validate_policy_ref(policy, groups);
    proof {
        lemma_unit_result(checked);
    }
    checked
}

proof fn lemma_unit_result(r: Result<(), ProfileError>)
    ensures
        r is Ok ==> r == Ok::<(), ProfileError>(()),
{
    if let Ok(u) = r {
        assert(u == ());
    }
}

impl Profile {
    /// Validates names, references, paths, intervals, and rule termination.
    pub fn validate(&self) -> (r: Result<(), ProfileError>)
        ensures
            r == as_unit_result(profile_error(*self)),
    {
        let ghost ps = self.providers@;
        let ghost gs = self.groups@;
        let ghost rs = self.rules@;
        if self.mixed_port == 0 {
            return Err(ProfileError::InvalidValue("mixed port"));
        }
        let mut i: usize = 0;
        while i < self.providers.len()
            invariant
                i <= self.providers.len(),
                ps == self.providers@,
                self.mixed_port != 0,
                first_error(ps.take(i as int), provider_check()) is None,
            decreases self.providers.len() - i,
        {
            proof {
                lemma_first_error_step(ps, provider_check(), i as int);
            }
            let provider = &self.providers[i];
            if provider_known(&provider.name, self.providers.as_slice(), i) {
                proof {
                    lemma_first_error_prefix(ps, provider_check(), i + 1);
                }
                return Err(ProfileError::DuplicateName);
            }
            if !provider_values_valid(provider) {
                proof {
                    lemma_first_error_prefix(ps, provider_check(), i + 1);
                }
                return Err(ProfileError::InvalidValue("proxy provider"));
            }
            i = i + 1;
        }
        assert(ps.take(ps.len() as int) == ps);
        let mut i: usize = 0;
        while i < self.groups.len()
            invariant
                i <= self.groups.len(),
                gs == self.groups@,
                ps == self.providers@,
                self.mixed_port != 0,
                first_error(ps, provider_check()) is None,
                first_error(gs.take(i as int), group_name_check()) is None,
            decreases self.groups.len() - i,
        {
            proof {
                lemma_first_error_step(gs, group_name_check(), i as int);
            }
            let group = &self.groups[i];
            if is_reserved_name(&group.name) || group_known(&group.name, self.groups.as_slice(), i) {
                proof {
                    lemma_first_error_prefix(gs, group_name_check(), i + 1);
                }
                return Err(ProfileError::DuplicateName);
            }
            i = i + 1;
        }
        assert(gs.take(gs.len() as int) == gs);
        let mut i: usize = 0;
        while i < self.groups.len()
            invariant
                i <= self.groups.len(),
                gs == self.groups@,
                ps == self.providers@,
                self.mixed_port != 0,
                first_error(ps, provider_check()) is None,
                first_error(gs, group_name_check()) is None,
                first_error(gs.take(i as int), group_kind_check(gs, ps)) is None,
            decreases self.groups.len() - i,
        {
            proof {
                lemma_first_error_step(gs, group_kind_check(gs, ps), i as int);
            }
            let checked = check_group_kind(
                &self.groups[i],
                self.groups.as_slice(),
                self.providers.as_slice(),
            );
            if checked.is_err() {
                proof {
                    lemma_first_error_prefix(gs, group_kind_check(gs, ps), i + 1);
                }
                return checked;
            }
            i = i + 1;
        }
        assert(gs.take(gs.len() as int) == gs);
        let n = self.rules.len();
        if n == 0 || !matches!(&self.rules[n - 1], Rule::Match { .. }) {
            return Err(ProfileError::MissingTerminalMatch);
        }
        let mut i: usize = 0;
        while i < n
            invariant
                i <= n,
                n == self.rules.len(),
                rs == self.rules@,
                gs == self.groups@,
                ps == self.providers@,
                self.mixed_port != 0,
                first_error(ps, provider_check()) is None,
                first_error(gs, group_name_check()) is None,
                first_error(gs, group_kind_check(gs, ps)) is None,
                ends_with_match(rs),
                first_error(rs.take(i as int), rule_check(n as int, gs)) is None,
            decreases n - i,
        {
            proof {
                lemma_first_error_step(rs, rule_check(n as int, gs), i as int);
            }
            let checked = check_rule(&self.rules[i], i, n, self.groups.as_slice());
            if checked.is_err() {
                proof {
                    lemma_first_error_prefix(rs, rule_check(n as int, gs), i + 1);
                }
                return checked;
            }
            i = i + 1;
        }
        assert(rs.take(rs.len() as int) == rs);
        assert(gs.take(gs.len() as int) == gs);
        Ok(())
    }
}


pub open spec fn gstatic_url() -> Seq<char> {
    "https://www.gstatic.com/generate_204"@
}

pub open spec fn provider_cache_path() -> Seq<char> {
    "./proxy_providers/subscription.yaml"@
}

/// The single subscription provider that the presets use.
pub open spec fn is_preset_provider(p: ProxyProvider, url: Seq<char>, health_check: bool) -> bool {
    &&& p.name@ == "subscription"@
    &&& p.url@ == url
    &&& p.interval_secs == 86400
    &&& p.path@ == provider_cache_path()
    &&& p.health_check.enabled == health_check
    &&& p.health_check.interval_secs == 600
    &&& p.health_check.url@ == gstatic_url()
}

pub open spec fn is_group_ref(r: PolicyRef, name: Seq<char>) -> bool {
    r matches PolicyRef::Group(n) && n@ == name
}

/// The QX-style default preset: an automatic url-test group and a manual `Proxy` group over one
/// subscription provider, with mainland-China addresses routed directly.
pub open spec fn is_qx_default(p: Profile, url: Seq<char>) -> bool {
    &&& p.mixed_port == 7890
    &&& p.log_level == LogLevel::Warning
    &&& p.store_selected
    &&& p.providers@.len() == 1
    &&& is_preset_provider(p.providers@[0], url, true)
    &&& p.groups@.len() == 2
    &&& p.groups@[0].name@ == "Auto"@
    &&& p.groups@[0].kind matches PolicyGroupKind::UrlTest { use_providers, url, interval_secs }
        && use_providers@.len() == 1 && use_providers@[0]@ == "subscription"@ && url@
        == gstatic_url() && interval_secs == 600
    &&& p.groups@[1].name@ == "Proxy"@
    &&& p.groups@[1].kind matches PolicyGroupKind::Select { proxies, use_providers }
        && proxies@.len() == 2 && is_group_ref(proxies@[0], "Auto"@) && proxies@[1]
        == PolicyRef::Direct && use_providers@.len() == 1 && use_providers@[0]@
        == "subscription"@
    &&& p.rules@.len() == 2
    &&& p.rules@[0] matches Rule::GeoIp { country, policy, no_resolve } && country@ == "CN"@
        && policy == PolicyRef::Direct && no_resolve
    &&& p.rules@[1] matches Rule::Match { policy } && is_group_ref(policy, "Proxy"@)
}

/// The isolated preview profile: one subscription provider without health checks, one `Preview`
/// select group over it, and a single `MATCH` rule; no GEOIP data and no url-test group.
pub open spec fn is_subscription_preview(p: Profile, url: Seq<char>, mixed_port: u16) -> bool {
    &&& p.mixed_port == mixed_port
    &&& p.log_level == LogLevel::Silent
    &&& !p.store_selected
    &&& p.providers@.len() == 1
    &&& is_preset_provider(p.providers@[0], url, false)
    &&& p.groups@.len() == 1
    &&& p.groups@[0].name@ == "Preview"@
    &&& p.groups@[0].kind matches PolicyGroupKind::Select { proxies, use_providers }
        && proxies@.len() == 0 && use_providers@.len() == 1 && use_providers@[0]@
        == "subscription"@
    &&& p.rules@.len() == 1
    &&& p.rules@[0] matches Rule::Match { policy } && is_group_ref(policy, "Preview"@)
}

proof fn lemma_ascii_byte_len(s: Seq<char>)
    requires
        vstd::utf8::is_ascii_chars(s),
        s.len() < 1000,
    ensures
        byte_len(s) == s.len(),
{
    vstd::utf8::is_ascii_chars_encode_utf8(s);
}

proof fn lemma_gstatic_url_is_https()
    ensures
        is_https_url(gstatic_url()),
{
    reveal_strlit("https://www.gstatic.com/generate_204");
    reveal_strlit("https://");
    let s = gstatic_url();
    let r = s.skip(8);
    assert(s.take(8) =~= "https://"@);
    assert(has_prefix(s, "https://"@));
    assert forall|j: int| 0 <= j < 15 implies !is_url_delimiter(#[trigger] r[j]) by {
        assert(r[j] == s[j + 8]);
    }
    assert(r[15] == s[23]);
    lemma_authority_end(r, 15);
    assert(authority(r) == r.take(15));
    assert forall|j: int| 0 <= j < 15 implies r.take(15)[j] != '@' by {
        assert(r.take(15)[j] == s[j + 8]);
    }
}

proof fn lemma_cache_path_is_safe()
    ensures
        is_safe_relative_path(provider_cache_path()),
{
    reveal_strlit("./proxy_providers/subscription.yaml");
    let s = provider_cache_path();
    assert forall|i: int| !parent_segment_at(s, i) by {
        if parent_segment_at(s, i) {
            assert(s[i] == '.' && s[i + 1] == '.');
        }
    }
}

proof fn lemma_preset_names()
    ensures
        is_valid_name("subscription"@),
        is_valid_name("Auto"@),
        is_valid_name("Proxy"@),
        is_valid_name("Preview"@),
        !is_reserved_policy_name("Auto"@),
        !is_reserved_policy_name("Proxy"@),
        !is_reserved_policy_name("Preview"@),
        "Auto"@ != "Proxy"@,
        is_rule_value("CN"@),
{
    reveal_strlit("subscription");
    reveal_strlit("Auto");
    reveal_strlit("Proxy");
    reveal_strlit("Preview");
    reveal_strlit("DIRECT");
    reveal_strlit("REJECT");
    reveal_strlit("CN");
    lemma_ascii_byte_len("subscription"@);
    lemma_ascii_byte_len("Auto"@);
    lemma_ascii_byte_len("Proxy"@);
    lemma_ascii_byte_len("Preview"@);
    lemma_ascii_byte_len("CN"@);
    assert("Auto"@.len() != "Proxy"@.len());
    assert("Auto"@[0] != "DIRECT"@[0]);
    assert("Auto"@[0] != "REJECT"@[0]);
    assert("Proxy"@[0] != "DIRECT"@[0]);
    assert("Proxy"@[0] != "REJECT"@[0]);
    assert("Preview"@[0] != "DIRECT"@[0]);
    assert("Preview"@[0] != "REJECT"@[0]);
}

proof fn lemma_qx_default_is_valid(p: Profile, url: Seq<char>)
    requires
        is_qx_default(p, url),
    ensures
        profile_error(p) is None,
{
    lemma_gstatic_url_is_https();
    lemma_cache_path_is_safe();
    lemma_preset_names();
    let ps = p.providers@;
    let gs = p.groups@;
    let rs = p.rules@;
    reveal_with_fuel(first_error, 3);
    assert(ps.drop_last().len() == 0);
    assert(first_error(ps, provider_check()) is None);
    assert(gs.drop_last() =~= seq![gs[0]]);
    assert(gs.drop_last().drop_last().len() == 0);
    assert(!group_named(gs[1].name@, gs.drop_last()));
    assert(first_error(gs, group_name_check()) is None);
    assert(provider_named("subscription"@, ps));
    assert(group_named("Auto"@, gs));
    assert(group_named("Proxy"@, gs));
    if let PolicyGroupKind::Select { proxies, use_providers } = gs[1].kind {
        assert(policy_ref_ok(proxies@[0], gs));
        assert(policy_refs_ok(proxies@, gs));
        assert(provider_refs_ok(use_providers@, ps));
    }
    if let PolicyGroupKind::UrlTest { use_providers, url, interval_secs } = gs[0].kind {
        assert(provider_refs_ok(use_providers@, ps));
    }
    assert(first_error(gs, group_kind_check(gs, ps)) is None);
    assert(rs.drop_last() =~= seq![rs[0]]);
    assert(rs.drop_last().drop_last().len() == 0);
    assert(first_error(rs, rule_check(2, gs)) is None);
}

proof fn lemma_subscription_preview_is_valid(p: Profile, url: Seq<char>, mixed_port: u16)
    requires
        is_subscription_preview(p, url, mixed_port),
    ensures
        profile_error(p) == (if mixed_port == 0 {
            Some(ProfileError::InvalidValue("mixed port"))
        } else {
            None
        }),
{
    lemma_gstatic_url_is_https();
    lemma_cache_path_is_safe();
    lemma_preset_names();
    let ps = p.providers@;
    let gs = p.groups@;
    let rs = p.rules@;
    reveal_with_fuel(first_error, 2);
    assert(ps.drop_last().len() == 0);
    assert(gs.drop_last().len() == 0);
    assert(rs.drop_last().len() == 0);
    assert(provider_named("subscription"@, ps));
    assert(group_named("Preview"@, gs));
    if let PolicyGroupKind::Select { proxies, use_providers } = gs[0].kind {
        assert(provider_refs_ok(use_providers@, ps));
    }
    assert(first_error(gs, group_kind_check(gs, ps)) is None);
    assert(first_error(rs, rule_check(1, gs)) is None);
}

impl Profile {
    /// Builds the first QX-style preset with manual and automatic policy groups.
    pub fn qx_default(subscription: SecretUrl) -> (r: Result<Self, ProfileError>)
        ensures
            r matches Ok(p) && is_qx_default(p, subscription@) && profile_error(p) is None,
    {
        proof {
            lemma_preset_names();
        }
        let ghost url = subscription@;
        let provider_name = Name::parse("subscription")?;
        let automatic_name = Name::parse("Auto")?;
        let proxy_name = Name::parse("Proxy")?;
        let profile = Profile {
            mixed_port: 7890,
            log_level: LogLevel::Warning,
            store_selected: true,
            providers: vec![
                ProxyProvider {
                    name: provider_name.clone(),
                    url: subscription,
                    interval_secs: 86400,
                    path: "./proxy_providers/subscription.yaml".to_owned(),
                    health_check: HealthCheck {
                        enabled: true,
                        interval_secs: 600,
                        url: "https://www.gstatic.com/generate_204".to_owned(),
                    },
                },
            ],
            groups: vec![
                PolicyGroup {
                    name: automatic_name.clone(),
                    kind: PolicyGroupKind::UrlTest {
                        use_providers: vec![provider_name.clone()],
                        url: "https://www.gstatic.com/generate_204".to_owned(),
                        interval_secs: 600,
                    },
                },
                PolicyGroup {
                    name: proxy_name.clone(),
                    kind: PolicyGroupKind::Select {
                        proxies: vec![PolicyRef::Group(automatic_name), PolicyRef::Direct],
                        use_providers: vec![provider_name],
                    },
                },
            ],
            rules: vec![
                Rule::GeoIp {
                    country: "CN".to_owned(),
                    policy: PolicyRef::Direct,
                    no_resolve: true,
                },
                Rule::Match { policy: PolicyRef::Group(proxy_name) },
            ],
        };
        assert(is_qx_default(profile, url));
        proof {
            lemma_qx_default_is_valid(profile, url);
        }
        profile.validate()?;
        Ok(profile)
    }

    /// Builds the isolated profile used to preview the nodes of a subscription: it downloads no
    /// GEOIP data and runs no health checks.
    pub fn subscription_preview(subscription: SecretUrl, mixed_port: u16) -> (r: Result<
        Self,
        ProfileError,
    >)
        ensures
            r is Ok <==> mixed_port != 0,
            r matches Ok(p) ==> is_subscription_preview(p, subscription@, mixed_port)
                && profile_error(p) is None,
            r matches Err(e) ==> e == ProfileError::InvalidValue("mixed port"),
    {
        proof {
            lemma_preset_names();
        }
        let ghost url = subscription@;
        let provider_name = Name::parse("subscription")?;
        let preview_name = Name::parse("Preview")?;
        let profile = Profile {
            mixed_port,
            log_level: LogLevel::Silent,
            store_selected: false,
            providers: vec![
                ProxyProvider {
                    name: provider_name.clone(),
                    url: subscription,
                    interval_secs: 86400,
                    path: "./proxy_providers/subscription.yaml".to_owned(),
                    health_check: HealthCheck {
                        enabled: false,
                        interval_secs: 600,
                        url: "https://www.gstatic.com/generate_204".to_owned(),
                    },
                },
            ],
            groups: vec![
                PolicyGroup {
                    name: preview_name.clone(),
                    kind: PolicyGroupKind::Select {
                        proxies: Vec::new(),
                        use_providers: vec![provider_name],
                    },
                },
            ],
            rules: vec![Rule::Match { policy: PolicyRef::Group(preview_name) }],
        };
        assert(is_subscription_preview(profile, url, mixed_port));
        proof {
            lemma_subscription_preview_is_valid(profile, url, mixed_port);
        }
        profile.validate()?;
        Ok(profile)
    }
}

} // verus!
