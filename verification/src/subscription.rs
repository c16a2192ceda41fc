//! Recognition of pasted sources: HTTP and HTTPS subscriptions, and `vless://` share links
//! previewed as a single node without exposing their credentials.
use vstd::prelude::*;

use crate::profile::{byte_len, is_subscription_url, Profile, SecretUrl};
use crate::text::{
    ascii_lower, char_is_ascii_hexdigit, char_is_whitespace, chars_of, contains_char,
    decimal, eq_ignore_ascii_case, find_pair, has_prefix, is_ascii_hexdigit, is_trimmed,
    is_whitespace, no_control, parse_unsigned, parse_unsigned_exec, push_chars, push_decimal,
    rsplit_once, rsplit_once_exec, slice_chars, split_all, split_chars, split_once,
    split_once_exec, starts_with, string_from_utf8, string_of, views,
};

verus! {

/// Longest pasted source accepted, in bytes.
pub const MAX_SUBSCRIPTION_BYTES: usize = 16384;

#[derive(Clone, Copy, Debug, PartialEq, Eq, Structural)]
pub enum SourceKind {
    HttpSubscription,
    HttpsSubscription,
    VlessNode,
}

/// A node shown before a source is imported.
#[derive(Debug, PartialEq, Eq)]
pub struct SourceNodePreview {
    pub name: String,
    pub protocol: &'static str,
    pub endpoint: String,
    pub detail: String,
}

/// What a node preview shows, as character sequences.
pub struct NodePreviewView {
    pub name: Seq<char>,
    pub protocol: Seq<char>,
    pub endpoint: Seq<char>,
    pub detail: Seq<char>,
}

impl View for SourceNodePreview {
    type V = NodePreviewView;

    open spec fn view(&self) -> NodePreviewView {
        NodePreviewView {
            name: self.name@,
            protocol: self.protocol@,
            endpoint: self.endpoint@,
            detail: self.detail@,
        }
    }
}

impl Clone for SourceNodePreview {
    fn clone(&self) -> (r: Self)
        ensures
            r@ == self@,
    {
        SourceNodePreview {
            name: self.name.clone(),
            protocol: self.protocol,
            endpoint: self.endpoint.clone(),
            detail: self.detail.clone(),
        }
    }
}

#[derive(Debug, PartialEq, Eq)]
pub struct SubscriptionPreview {
    pub kind: SourceKind,
    pub nodes: Vec<SourceNodePreview>,
}

/// A saved `vless://` share link; its text never enters diagnostics.
#[derive(PartialEq, Eq)]
pub struct VlessSource {
    value: String,
    preview: SourceNodePreview,
}

impl core::fmt::Debug for VlessSource {
    /// Writes only a fixed redacted marker, never the link.
    #[verifier::external_body]
    fn fmt(&self, formatter: &mut core::fmt::Formatter<'_>) -> core::fmt::Result {
        formatter.write_str("VlessSource(<redacted>)")
    }
}

#[derive(Clone, Copy, Debug, PartialEq, Eq, Structural)]
pub enum SubscriptionInputError {
    Empty,
    UnsupportedSource,
    TooLong,
    InvalidPreset,
    InvalidVless,
}

impl SubscriptionInputError {
    /// The user-facing message of this error; it never quotes the input.
    pub fn message(self) -> (r: &'static str)
        ensures
            r@ == match self {
                SubscriptionInputError::Empty => "请输入订阅链接或 VLESS 节点链接"@,
                SubscriptionInputError::UnsupportedSource => "无法识别；请输入 HTTP/HTTPS 订阅或 vless:// 节点链接"@,
                SubscriptionInputError::TooLong => "来源地址过长，请确认复制的是完整地址"@,
                SubscriptionInputError::InvalidPreset => "订阅地址有效，但无法生成默认策略"@,
                SubscriptionInputError::InvalidVless => "VLESS 链接不完整，请检查 UUID、服务器和端口"@,
            },
    {
        match self {
            SubscriptionInputError::Empty => "请输入订阅链接或 VLESS 节点链接",
            SubscriptionInputError::UnsupportedSource => {
                "无法识别；请输入 HTTP/HTTPS 订阅或 vless:// 节点链接"
            },
            SubscriptionInputError::TooLong => "来源地址过长，请确认复制的是完整地址",
            SubscriptionInputError::InvalidPreset => "订阅地址有效，但无法生成默认策略",
            SubscriptionInputError::InvalidVless => "VLESS 链接不完整，请检查 UUID、服务器和端口",
        }
    }
}

/// A UUID in its 8-4-4-4-12 hexadecimal form.
pub open spec fn is_uuid(s: Seq<char>) -> bool {
    &&& s.len() == 36
    &&& forall|i: int|
        0 <= i < 36 ==> if i == 8 || i == 13 || i == 18 || i == 23 {
            #[trigger] s[i] == '-'
        } else {
            is_ascii_hexdigit(s[i])
        }
}

/// The host and port text of a server, `[v6]:port` or `host:port` split at the last colon.
pub open spec fn server_parts(s: Seq<char>) -> Option<(Seq<char>, Seq<char>)> {
    if s.len() > 0 && s[0] == '[' {
        let r = s.drop_first();
        let k = find_pair(r, ']', ':');
        if k == r.len() {
            None
        } else {
            Some((r.take(k as int), r.skip(k as int + 2)))
        }
    } else {
        rsplit_once(s, ':')
    }
}

/// The host and non-zero port of a server.
pub open spec fn parsed_server(s: Seq<char>) -> Option<(Seq<char>, u16)> {
    match server_parts(s) {
        None => None,
        Some((host, port)) => match parse_unsigned(port, 65535) {
            Some(p) => if p > 0 && host.len() > 0 {
                Some((host, p as u16))
            } else {
                None
            },
            None => None,
        },
    }
}

/// The value of a `key=value` pair whose key equals `key` ignoring ASCII case.
pub open spec fn pair_value(pair: Seq<char>, key: Seq<char>) -> Option<Seq<char>> {
    match split_once(pair, '=') {
        Some((candidate, value)) => if ascii_lower(candidate) == ascii_lower(key) {
            Some(value)
        } else {
            None
        },
        None => None,
    }
}

pub open spec fn first_value(pairs: Seq<Seq<char>>, key: Seq<char>) -> Option<Seq<char>>
    decreases pairs.len(),
{
    if pairs.len() == 0 {
        None
    } else {
        match pair_value(pairs[0], key) {
            Some(v) => Some(v),
            None => first_value(pairs.drop_first(), key),
        }
    }
}

/// The value of the first `&`-separated pair of a query whose key is `key`.
pub open spec fn query_lookup(query: Seq<char>, key: Seq<char>) -> Option<Seq<char>> {
    first_value(split_all(query, '&'), key)
}

/// The label of a known transport.
pub open spec fn transport_text(v: Seq<char>) -> Option<Seq<char>> {
    if ascii_lower(v) == ascii_lower("ws"@) {
        Some("WebSocket"@)
    } else if ascii_lower(v) == ascii_lower("grpc"@) {
        Some("gRPC"@)
    } else if ascii_lower(v) == ascii_lower("tcp"@) {
        Some("TCP"@)
    } else if ascii_lower(v) == ascii_lower("h2"@) {
        Some("HTTP/2"@)
    } else {
        None
    }
}

/// The label of the declared security layer.
pub open spec fn security_text(o: Option<Seq<char>>) -> Seq<char> {
    match o {
        None => "未声明安全层"@,
        Some(v) => if ascii_lower(v) == ascii_lower("tls"@) {
            "TLS"@
        } else if ascii_lower(v) == ascii_lower("reality"@) {
            "REALITY"@
        } else if ascii_lower(v) == ascii_lower("none"@) {
            "无 TLS"@
        } else {
            "自定义安全层"@
        },
    }
}

/// The security layer, then the transport when it is known.
pub open spec fn node_detail(query: Seq<char>) -> Seq<char> {
    let security = security_text(query_lookup(query, "security"@));
    match query_lookup(query, "type"@) {
        Some(t) => match transport_text(t) {
            Some(label) => security + " · "@ + label,
            None => security,
        },
        None => security,
    }
}

proof fn lemma_lower_literals()
    ensures
        ascii_lower("tls"@) == "tls"@,
        ascii_lower("reality"@) == "reality"@,
        ascii_lower("none"@) == "none"@,
{
    reveal_strlit("tls");
    reveal_strlit("reality");
    reveal_strlit("none");
    assert(ascii_lower("tls"@) =~= "tls"@);
    assert(ascii_lower("reality"@) =~= "reality"@);
    assert(ascii_lower("none"@) =~= "none"@);
}

proof fn lemma_prefix_of_concat(a: Seq<char>, b: Seq<char>, p: Seq<char>)
    ensures
        has_prefix(a, p) ==> has_prefix(a + b, p),
        p.len() > 0 && a.len() > 0 && has_prefix(a + b, p) ==> a[0] == p[0],
{
    if has_prefix(a, p) {
        assert((a + b).take(p.len() as int) =~= a.take(p.len() as int));
    }
    if p.len() > 0 && a.len() > 0 && has_prefix(a + b, p) {
        assert((a + b).take(p.len() as int)[0] == p[0]);
    }
}

/// A node's detail reads its declared security layer: a declared `none`, in any ASCII case,
/// shows the node as having no TLS, and the detail starts with `TLS` exactly where the declared
/// layer is `tls` in some ASCII case.
pub proof fn lemma_security_detail(query: Seq<char>)
    ensures
        (query_lookup(query, "security"@) matches Some(v) && ascii_lower(v) == "none"@)
            ==> has_prefix(node_detail(query), "无 TLS"@),
        has_prefix(node_detail(query), "TLS"@) <==> (query_lookup(query, "security"@) matches Some(
            v,
        ) && ascii_lower(v) == "tls"@),
        has_prefix(node_detail(query), "REALITY"@) <==> (query_lookup(query, "security"@) matches Some(
            v,
        ) && ascii_lower(v) == "reality"@),
        query_lookup(query, "security"@) is None ==> has_prefix(node_detail(query), "未声明安全层"@),
        (query_lookup(query, "security"@) matches Some(v) && ascii_lower(v) != "tls"@ && ascii_lower(
            v,
        ) != "reality"@ && ascii_lower(v) != "none"@) ==> has_prefix(
            node_detail(query),
            "自定义安全层"@,
        ),
{
    lemma_lower_literals();
    reveal_strlit("TLS");
    reveal_strlit("REALITY");
    reveal_strlit("无 TLS");
    reveal_strlit("自定义安全层");
    reveal_strlit("未声明安全层");
    reveal_strlit(" · ");
    reveal_strlit("tls");
    reveal_strlit("reality");
    reveal_strlit("none");
    assert("tls"@[0] != "none"@[0]);
    assert("reality"@[0] != "none"@[0]);
    assert("reality"@[0] != "tls"@[0]);
    let o = query_lookup(query, "security"@);
    let security = security_text(o);
    let rest = node_detail(query).skip(security.len() as int);
    assert(node_detail(query) =~= security + rest);
    lemma_prefix_of_concat(security, rest, "TLS"@);
    lemma_prefix_of_concat(security, rest, "无 TLS"@);
    lemma_prefix_of_concat(security, rest, "REALITY"@);
    lemma_prefix_of_concat(security, rest, "未声明安全层"@);
    lemma_prefix_of_concat(security, rest, "自定义安全层"@);
    assert(has_prefix("REALITY"@, "REALITY"@)) by {
        assert("REALITY"@.take(7) =~= "REALITY"@);
    }
    assert(has_prefix("未声明安全层"@, "未声明安全层"@)) by {
        assert("未声明安全层"@.take(6) =~= "未声明安全层"@);
    }
    assert(has_prefix("自定义安全层"@, "自定义安全层"@)) by {
        assert("自定义安全层"@.take(6) =~= "自定义安全层"@);
    }
    assert(has_prefix("TLS"@, "TLS"@)) by {
        assert("TLS"@.take(3) =~= "TLS"@);
    }
    assert(has_prefix("无 TLS"@, "无 TLS"@)) by {
        assert("无 TLS"@.take(5) =~= "无 TLS"@);
    }
}

/// Whether a declared transport is `known`, ignoring ASCII case.
pub open spec fn declares_transport(query: Seq<char>, known: Seq<char>) -> bool {
    query_lookup(query, "type"@) matches Some(t) && ascii_lower(t) == known
}

/// A node's detail is its security label, followed by ` · ` and the transport's label exactly
/// when the link declares a known transport in any ASCII case: `ws` as WebSocket, `grpc` as
/// gRPC, `tcp` as TCP and `h2` as HTTP/2.
pub proof fn lemma_transport_detail(query: Seq<char>)
    ensures
        ({
            let security = security_text(query_lookup(query, "security"@));
            &&& declares_transport(query, "ws"@) ==> node_detail(query) == security
                + " · "@ + "WebSocket"@
            &&& declares_transport(query, "grpc"@) ==> node_detail(query) == security + " · "@ + "gRPC"@
            &&& declares_transport(query, "tcp"@) ==> node_detail(query) == security + " · "@ + "TCP"@
            &&& declares_transport(query, "h2"@) ==> node_detail(query) == security + " · "@ + "HTTP/2"@
            &&& !declares_transport(query, "ws"@) && !declares_transport(query, "grpc"@)
                && !declares_transport(query, "tcp"@) && !declares_transport(query, "h2"@)
                ==> node_detail(query) == security
        }),
{
    reveal_strlit("ws");
    reveal_strlit("grpc");
    reveal_strlit("tcp");
    reveal_strlit("h2");
    assert(ascii_lower("ws"@) =~= "ws"@);
    assert(ascii_lower("grpc"@) =~= "grpc"@);
    assert(ascii_lower("tcp"@) =~= "tcp"@);
    assert(ascii_lower("h2"@) =~= "h2"@);
    assert("ws"@ != "grpc"@ && "ws"@ != "tcp"@ && "ws"@ != "h2"@) by {
        assert("ws"@[0] != "grpc"@[0] && "ws"@[0] != "tcp"@[0] && "ws"@[0] != "h2"@[0]);
    }
    assert("grpc"@ != "tcp"@ && "grpc"@ != "h2"@ && "tcp"@ != "h2"@) by {
        assert("grpc"@[0] != "tcp"@[0] && "grpc"@[0] != "h2"@[0] && "tcp"@[0] != "h2"@[0]);
    }
}

/// The endpoint shown for a node reads back as its server: a host with a colon (an IPv6
/// address) is bracketed, and parsing the endpoint as a server gives the host and port again,
/// for every host without brackets of its own.
pub proof fn lemma_endpoint_reads_back(host: Seq<char>, port: u16)
    requires
        host.len() > 0,
        port > 0,
        !host.contains('['),
        !host.contains(']'),
    ensures
        host.contains(':') ==> endpoint_text(host, port)[0] == '[',
        parsed_server(endpoint_text(host, port)) == Some((host, port)),
{
    let d = decimal(port as nat);
    crate::diagnostics::lemma_decimal_parses(port as nat, 65535);
    crate::diagnostics::lemma_decimal_digits(port as nat);
    assert forall|j: int| 0 <= j < d.len() implies #[trigger] d[j] != ':' && d[j] != ']' by {
        assert(crate::text::is_ascii_digit(d[j]));
    }
    let e = endpoint_text(host, port);
    if host.contains(':') {
        reveal_strlit("[");
        reveal_strlit("]:");
        assert(e =~= seq!['['] + host + seq![']', ':'] + d);
        let r = e.drop_first();
        assert(r =~= host + seq![']', ':'] + d);
        let k = host.len() as int;
        assert forall|j: int| 0 <= j && j + 1 < r.len() && j < k implies !(#[trigger] r[j] == ']'
            && r[j + 1] == ':') by {
            assert(r[j] == host[j]);
        }
        crate::text::lemma_find_pair(r, ']', ':', k);
        assert(r.take(k) =~= host);
        assert(r.skip(k + 2) =~= d);
    } else {
        reveal_strlit(":");
        assert(e =~= host + seq![':'] + d);
        let k = host.len() as int;
        assert forall|j: int| k < j < e.len() implies #[trigger] e[j] != ':' by {
            assert(e[j] == d[j - k - 1]);
        }
        crate::text::lemma_rfind_char(e, ':', k);
        assert(e.take(k) =~= host);
        assert(e.skip(k + 1) =~= d);
        assert(e[0] == host[0]);
    }
}

pub open spec fn hex_byte_value(b: u8) -> Option<u8> {
    if 48 <= b <= 57 {
        Some((b - 48) as u8)
    } else if 97 <= b <= 102 {
        Some((b - 87) as u8)
    } else if 65 <= b <= 70 {
        Some((b - 55) as u8)
    } else {
        None
    }
}

pub open spec fn prepend(d: Seq<u8>, o: Option<Seq<u8>>) -> Option<Seq<u8>> {
    match o {
        Some(r) => Some(d + r),
        None => None,
    }
}

/// The bytes of a URL fragment with `%XX` escapes decoded and `+` read as a space.
pub open spec fn percent_bytes(b: Seq<u8>) -> Option<Seq<u8>>
    decreases b.len(),
{
    if b.len() == 0 {
        Some(Seq::empty())
    } else if b[0] == 37 {
        if b.len() < 3 {
            None
        } else {
            match (hex_byte_value(b[1]), hex_byte_value(b[2])) {
                (Some(h), Some(l)) => prepend(seq![(h * 16 + l) as u8], percent_bytes(b.skip(3))),
                _ => None,
            }
        }
    } else {
        prepend(seq![if b[0] == 43 { 32u8 } else { b[0] }], percent_bytes(b.skip(1)))
    }
}

/// A percent-decoded fragment, when its bytes decode to UTF-8.
pub open spec fn percent_decoded(s: Seq<char>) -> Option<Seq<char>> {
    match percent_bytes(vstd::utf8::encode_utf8(s)) {
        Some(b) => if vstd::utf8::valid_utf8(b) {
            Some(vstd::utf8::decode_utf8(b))
        } else {
            None
        },
        None => None,
    }
}

pub open spec fn all_whitespace(s: Seq<char>) -> bool {
    forall|i: int| 0 <= i < s.len() ==> is_whitespace(#[trigger] s[i])
}

/// The display name of a node: its decoded fragment when it has visible text, else
/// `VLESS · <host>`.
pub open spec fn node_name(fragment: Option<Seq<char>>, host: Seq<char>) -> Seq<char> {
    let fallback = "VLESS · "@ + host;
    match fragment {
        Some(f) => match percent_decoded(f) {
            Some(n) => if !all_whitespace(n) {
                n
            } else {
                fallback
            },
            None => fallback,
        },
        None => fallback,
    }
}

pub open spec fn endpoint_text(host: Seq<char>, port: u16) -> Seq<char> {
    if host.contains(':') {
        "["@ + host + "]:"@ + decimal(port as nat)
    } else {
        host + ":"@ + decimal(port as nat)
    }
}

/// The node that a `vless://uuid@server?query#name` share link describes.
pub open spec fn vless_node(s: Seq<char>) -> Option<NodePreviewView> {
    if !is_trimmed(s) || !no_control(s) || !has_prefix(s, "vless://"@) {
        None
    } else {
        let rem = s.skip("vless://"@.len() as int);
        let (without_fragment, fragment) = match split_once(rem, '#') {
            Some((a, b)) => (a, Some(b)),
            None => (rem, None),
        };
        let (authority, query) = match split_once(without_fragment, '?') {
            Some((a, b)) => (a, b),
            None => (without_fragment, Seq::empty()),
        };
        match split_once(authority, '@') {
            None => None,
            Some((uuid, server)) => if !is_uuid(uuid) {
                None
            } else {
                match parsed_server(server) {
                    None => None,
                    Some((host, port)) => Some(
                        NodePreviewView {
                            name: node_name(fragment, host),
                            protocol: "VLESS"@,
                            endpoint: endpoint_text(host, port),
                            detail: node_detail(query),
                        },
                    ),
                }
            },
        }
    }
}

pub fn is_uuid_exec(v: &[char]) -> (r: bool)
    ensures
        r == is_uuid(v@),
{
    if v.len() != 36 {
        return false;
    }
    let mut i: usize = 0;
    while i < 36
        invariant
            i <= 36,
            v.len() == 36,
            forall|j: int|
                0 <= j < i ==> if j == 8 || j == 13 || j == 18 || j == 23 {
                    #[trigger] v@[j] == '-'
                } else {
                    is_ascii_hexdigit(v@[j])
                },
        decreases 36 - i,
    {
        if i == 8 || i == 13 || i == 18 || i == 23 {
            if v[i] != '-' {
                return false;
            }
        } else if !char_is_ascii_hexdigit(v[i]) {
            return false;
        }
        i = i + 1;
    }
    true
}

/// Splits a server into its host and non-zero port.
pub fn parse_server(value: &[char]) -> (r: Option<(Vec<char>, u16)>)
    ensures
        r is Some <==> parsed_server(value@) is Some,
        r matches Some((host, port)) ==> parsed_server(value@) == Some((host@, port)),
{
    let parts = if value.len() > 0 && value[0] == '[' {
        let ghost rest = value@.drop_first();
        let mut k: usize = 1;
        while k < value.len() - 1 && !(value[k] == ']' && value[k + 1] == ':')
            invariant
                1 <= k <= value.len(),
                forall|j: int|
                    1 <= j < k && j + 1 < value.len() ==> !(#[trigger] value@[j] == ']' && value@[j
                        + 1] == ':'),
            decreases value.len() - k,
        {
            k = k + 1;
        }
        proof {
            assert forall|j: int| 0 <= j && j + 1 < rest.len() && j < k - 1 implies !(
            #[trigger] rest[j] == ']' && rest[j + 1] == ':') by {
                assert(rest[j] == value@[j + 1] && rest[j + 1] == value@[j + 2]);
            }
            if k + 1 < value.len() {
                assert(rest[k - 1] == value@[k as int] && rest[k as int] == value@[k + 1]);
                crate::text::lemma_find_pair(rest, ']', ':', k - 1);
            } else {
                if k + 1 == value.len() {
                    assert forall|j: int| 0 <= j && j + 1 < rest.len() && j < rest.len() implies !(
                    #[trigger] rest[j] == ']' && rest[j + 1] == ':') by {
                        assert(rest[j] == value@[j + 1] && rest[j + 1] == value@[j + 2]);
                    }
                    crate::text::lemma_find_pair(rest, ']', ':', rest.len() as int);
                } else {
                    crate::text::lemma_find_pair(rest, ']', ':', rest.len() as int);
                }
            }
        }
        if k >= value.len() - 1 {
            None
        } else {
            let host = slice_chars(value, 1, k);
            let port = slice_chars(value, k + 2, value.len());
            assert(host@ == rest.take(k - 1));
            assert(port@ == rest.skip(k - 1 + 2));
            Some((host, port))
        }
    } else {
        rsplit_once_exec(value, ':')
    };
    let (host, port_text) = match parts {
        Some(p) => p,
        None => return None,
    };
    let port = match parse_unsigned_exec(port_text.as_slice(), 65535) {
        Some(p) => p,
        None => return None,
    };
    if port > 0 && host.len() > 0 {
        Some((host, port as u16))
    } else {
        None
    }
}

fn pair_value_exec(pair: &Vec<char>, key: &[char]) -> (r: Option<Vec<char>>)
    ensures
        r is Some <==> pair_value(pair@, key@) is Some,
        r matches Some(v) ==> pair_value(pair@, key@) == Some(v@),
{
    match split_once_exec(pair.as_slice(), '=') {
        Some((candidate, value)) => {
            if eq_ignore_ascii_case(candidate.as_slice(), key) {
                Some(value)
            } else {
                None
            }
        },
        None => None,
    }
}

/// The value of the first query pair whose key is `key`, ignoring ASCII case.
pub fn query_value(query: &[char], key: &[char]) -> (r: Option<Vec<char>>)
    ensures
        r is Some <==> query_lookup(query@, key@) is Some,
        r matches Some(v) ==> query_lookup(query@, key@) == Some(v@),
{
    let pairs = split_chars(query, '&', None);
    let ghost all = views(pairs@);
    let mut i: usize = 0;
    assert(all.skip(0) == all);
    while i < pairs.len()
        invariant
            i <= pairs.len(),
            all == views(pairs@),
            first_value(all.skip(i as int), key@) == query_lookup(query@, key@),
        decreases pairs.len() - i,
    {
        assert(all.skip(i as int)[0] == pairs@[i as int]@);
        assert(all.skip(i as int).drop_first() == all.skip(i + 1));
        if let Some(v) = pair_value_exec(&pairs[i], key) {
            return Some(v);
        }
        i = i + 1;
    }
    assert(all.skip(i as int).len() == 0);
    None
}

fn eq_literal(v: &[char], literal: &str) -> (r: bool)
    ensures
        r == (ascii_lower(v@) == ascii_lower(literal@)),
{
    let l = chars_of(literal);
    eq_ignore_ascii_case(v, l.as_slice())
}

/// The label of a known transport.
pub fn transport_label(value: &[char]) -> (r: Option<&'static str>)
    ensures
        r is Some <==> transport_text(value@) is Some,
        r matches Some(label) ==> transport_text(value@) == Some(label@),
{
    if eq_literal(value, "ws") {
        Some("WebSocket")
    } else if eq_literal(value, "grpc") {
        Some("gRPC")
    } else if eq_literal(value, "tcp") {
        Some("TCP")
    } else if eq_literal(value, "h2") {
        Some("HTTP/2")
    } else {
        None
    }
}

fn security_label(value: &Option<Vec<char>>) -> (r: &'static str)
    ensures
        r@ == security_text(match value {
            Some(v) => Some(v@),
            None => None,
        }),
{
    match value {
        None => "未声明安全层",
        Some(v) => {
            if eq_literal(v.as_slice(), "tls") {
                "TLS"
            } else if eq_literal(v.as_slice(), "reality") {
                "REALITY"
            } else if eq_literal(v.as_slice(), "none") {
                "无 TLS"
            } else {
                "自定义安全层"
            }
        },
    }
}

/// The value of an ASCII hexadecimal digit.
pub fn hex_value(value: u8) -> (r: Option<u8>)
    ensures
        r == hex_byte_value(value),
{
    if 48 <= value && value <= 57 {
        Some(value - 48)
    } else if 97 <= value && value <= 102 {
        Some(value - 87)
    } else if 65 <= value && value <= 70 {
        Some(value - 55)
    } else {
        None
    }
}

/// Decodes `%XX` escapes and `+` of a URL fragment.
pub fn percent_decode(value: &str) -> (r: Option<String>)
    ensures
        r is Some <==> percent_decoded(value@) is Some,
        r matches Some(s) ==> percent_decoded(value@) == Some(s@),
{
    let bytes = value.as_bytes();
    let ghost b = bytes@;
    let mut decoded: Vec<u8> = Vec::new();
    let mut index: usize = 0;
    assert(b.skip(0) == b);
    while index < bytes.len()
        invariant
            index <= bytes.len(),
            b == bytes@,
            b == vstd::utf8::encode_utf8(value@),
            percent_bytes(b) == prepend(decoded@, percent_bytes(b.skip(index as int))),
        decreases bytes.len() - index,
    {
        let ghost rest = b.skip(index as int);
        assert(rest[0] == bytes@[index as int]);
        if bytes[index] == 37 {
            if bytes.len() - index < 3 {
                assert(rest.len() < 3);
                return None;
            }
            assert(rest[1] == bytes@[index + 1] && rest[2] == bytes@[index + 2]);
            let high = match hex_value(bytes[index + 1]) {
                Some(h) => h,
                None => return None,
            };
            let low = match hex_value(bytes[index + 2]) {
                Some(l) => l,
                None => return None,
            };
            let ghost before = decoded@;
            decoded.push(high * 16 + low);
            assert(rest.skip(3) == b.skip(index + 3));
            index = index + 3;
            assert(decoded@ == before + seq![(high * 16 + low) as u8]);
            proof {
                match percent_bytes(b.skip(index as int)) {
                    Some(r) => assert(before + (seq![(high * 16 + low) as u8] + r) =~= decoded@ + r),
                    None => {},
                }
            }
        } else {
            let ghost before = decoded@;
            let c = if bytes[index] == 43 {
                32u8
            } else {
                bytes[index]
            };
            decoded.push(c);
            assert(rest.skip(1) == b.skip(index + 1));
            index = index + 1;
            proof {
                match percent_bytes(b.skip(index as int)) {
                    Some(r) => assert(before + (seq![c] + r) =~= decoded@ + r),
                    None => {},
                }
            }
        }
    }
    assert(b.skip(index as int).len() == 0);
    assert(decoded@ + Seq::<u8>::empty() == decoded@);
    string_from_utf8(decoded)
}

fn all_whitespace_exec(v: &[char]) -> (r: bool)
    ensures
        r == all_whitespace(v@),
{
    let mut i: usize = 0;
    while i < v.len()
        invariant
            i <= v.len(),
            forall|j: int| 0 <= j < i ==> is_whitespace(#[trigger] v@[j]),
        decreases v.len() - i,
    {
        if !char_is_whitespace(v[i]) {
            return false;
        }
        i = i + 1;
    }
    true
}

fn node_name_exec(fragment: &Option<Vec<char>>, host: &Vec<char>) -> (r: String)
    ensures
        r@ == node_name(
            match fragment {
                Some(f) => Some(f@),
                None => None,
            },
            host@,
        ),
{
    if let Some(f) = fragment {
        let text = string_of(f.as_slice());
        if let Some(name) = percent_decode(text.as_str()) {
            let chars = chars_of(name.as_str());
            if !all_whitespace_exec(chars.as_slice()) {
                return name;
            }
        }
    }
    let mut fallback = "VLESS · ".to_owned();
    push_chars(&mut fallback, host.as_slice());
    fallback
}

fn endpoint_exec(host: &Vec<char>, port: u16) -> (r: String)
    ensures
        r@ == endpoint_text(host@, port),
{
    if contains_char(host.as_slice(), ':') {
        let mut out = "[".to_owned();
        push_chars(&mut out, host.as_slice());
        out.append("]:");
        push_decimal(&mut out, port as u128);
        out
    } else {
        let mut out = String::new();
        push_chars(&mut out, host.as_slice());
        out.append(":");
        push_decimal(&mut out, port as u128);
        assert(out@ =~= host@ + ":"@ + decimal(port as nat));
        out
    }
}

fn node_detail_exec(query: &Vec<char>) -> (r: String)
    ensures
        r@ == node_detail(query@),
{
    let security_key = chars_of("security");
    let type_key = chars_of("type");
    let security = security_label(&query_value(query.as_slice(), security_key.as_slice()));
    match query_value(query.as_slice(), type_key.as_slice()) {
        Some(t) => match transport_label(t.as_slice()) {
            Some(label) => {
                let mut out = security.to_owned();
                out.append(" · ");
                out.append(label);
                out
            },
            None => security.to_owned(),
        },
        None => security.to_owned(),
    }
}

/// Reads the node that a `vless://` share link describes.
pub fn parse_vless_node(input: &str) -> (r: Result<SourceNodePreview, SubscriptionInputError>)
    ensures
        r is Ok <==> vless_node(input@) is Some,
        r matches Ok(n) ==> vless_node(input@) == Some(n@),
        r matches Err(e) ==> e == SubscriptionInputError::InvalidVless,
{
    let v = chars_of(input);
    let scheme = chars_of("vless://");
    if !crate::text::is_trimmed_chars(v.as_slice()) || crate::text::has_control(v.as_slice())
        || !starts_with(v.as_slice(), scheme.as_slice()) {
        return Err(SubscriptionInputError::InvalidVless);
    }
    let rem = slice_chars(v.as_slice(), scheme.len(), v.len());
    assert(rem@ == v@.skip("vless://"@.len() as int));
    let (without_fragment, fragment) = match split_once_exec(rem.as_slice(), '#') {
        Some((a, b)) => (a, Some(b)),
        None => (rem, None),
    };
    let (authority, query) = match split_once_exec(without_fragment.as_slice(), '?') {
        Some((a, b)) => (a, b),
        None => (without_fragment, Vec::new()),
    };
    let (uuid, server) = match split_once_exec(authority.as_slice(), '@') {
        Some(p) => p,
        None => return Err(SubscriptionInputError::InvalidVless),
    };
    if !is_uuid_exec(uuid.as_slice()) {
        return Err(SubscriptionInputError::InvalidVless);
    }
    let (host, port) = match parse_server(server.as_slice()) {
        Some(p) => p,
        None => return Err(SubscriptionInputError::InvalidVless),
    };
    Ok(
        SourceNodePreview {
            name: node_name_exec(&fragment, &host),
            protocol: "VLESS",
            endpoint: endpoint_exec(&host, port),
            detail: node_detail_exec(&query),
        },
    )
}

impl Clone for VlessSource {
    fn clone(&self) -> (r: Self)
        ensures
            r.text() == self.text(),
            r.node() == self.node(),
    {
        proof {
            use_type_invariant(self);
        }
        VlessSource { value: self.value.clone(), preview: self.preview.clone() }
    }
}

impl VlessSource {
    /// The kept preview is the one that the kept share link gives.
    #[verifier::type_invariant]
    spec fn previews_its_link(self) -> bool {
        vless_node(self.value@) == Some(self.preview@)
    }

    pub closed spec fn text(&self) -> Seq<char> {
        self.value@
    }

    pub closed spec fn node(&self) -> NodePreviewView {
        self.preview@
    }

    /// Keeps a share link whose node can be previewed.
    pub fn parse(input: &str) -> (r: Result<Self, SubscriptionInputError>)
        ensures
            r is Ok <==> vless_node(input@) is Some,
            r matches Ok(source) ==> source.text() == input@ && vless_node(input@) == Some(
                source.node(),
            ),
            r matches Err(e) ==> e == SubscriptionInputError::InvalidVless,
    {
        let preview = parse_vless_node(input)?;
        Ok(VlessSource { value: input.to_owned(), preview })
    }

    /// Whether two sources hold the same share link.
    pub fn same_link(&self, other: &VlessSource) -> (r: bool)
        ensures
            r == (self.text() == other.text()),
    {
        crate::text::str_equal(self.value.as_str(), other.value.as_str())
    }

    pub fn preview(&self) -> (r: &SourceNodePreview)
        ensures
            r@ == self.node(),
            vless_node(self.text()) == Some(r@),
    {
        proof {
            use_type_invariant(self);
        }
        &self.preview
    }

    /// Lends the share link to `use_value` without letting it into diagnostics.
    pub fn expose_to<T, F: FnOnce(&str) -> T>(&self, use_value: F) -> (r: T)
        requires
            forall|s: &str| s@ == self.text() ==> call_requires(use_value, (s,)),
        ensures
            exists|s: &str| s@ == self.text() && call_ensures(use_value, (s,), r),
    {
        use_value(self.value.as_str())
    }

    /// The one-node preview of this source.
    pub fn into_preview(self) -> (r: SubscriptionPreview)
        ensures
            r.kind == SourceKind::VlessNode,
            r.nodes@.len() == 1,
            r.nodes@[0]@ == self.node(),
            vless_node(self.text()) == Some(r.nodes@[0]@),
    {
        proof {
            use_type_invariant(&self);
        }
        SubscriptionPreview { kind: SourceKind::VlessNode, nodes: vec![self.preview] }
    }
}

/// What recognizing a pasted source gives: its kind and, for a share link, its node.
pub open spec fn recognized_source(s: Seq<char>) -> Result<
    (SourceKind, Option<NodePreviewView>),
    SubscriptionInputError,
> {
    if s.len() == 0 {
        Err(SubscriptionInputError::Empty)
    } else if byte_len(s) > MAX_SUBSCRIPTION_BYTES {
        Err(SubscriptionInputError::TooLong)
    } else if has_prefix(s, "vless://"@) {
        match vless_node(s) {
            Some(n) => Ok((SourceKind::VlessNode, Some(n))),
            None => Err(SubscriptionInputError::InvalidVless),
        }
    } else if !is_subscription_url(s) {
        Err(SubscriptionInputError::UnsupportedSource)
    } else if has_prefix(s, "https://"@) {
        Ok((SourceKind::HttpsSubscription, None))
    } else {
        Ok((SourceKind::HttpSubscription, None))
    }
}

/// A pasted source that fits is recognized by its scheme: an HTTPS URL as an HTTPS
/// subscription, an HTTP URL as an HTTP subscription, both without a node preview, and a
/// `vless://` link that describes a node as that single node.
pub proof fn lemma_source_kind_by_scheme(s: Seq<char>)
    requires
        s.len() > 0,
        byte_len(s) <= MAX_SUBSCRIPTION_BYTES,
    ensures
        crate::profile::is_url_with_scheme(s, "https://"@) ==> recognized_source(s) == Ok::<
            (SourceKind, Option<NodePreviewView>),
            SubscriptionInputError,
        >((SourceKind::HttpsSubscription, None)),
        crate::profile::is_url_with_scheme(s, "http://"@) ==> recognized_source(s) == Ok::<
            (SourceKind, Option<NodePreviewView>),
            SubscriptionInputError,
        >((SourceKind::HttpSubscription, None)),
        vless_node(s) matches Some(n) ==> recognized_source(s) == Ok::<
            (SourceKind, Option<NodePreviewView>),
            SubscriptionInputError,
        >((SourceKind::VlessNode, Some(n))),
{
    reveal_strlit("https://");
    reveal_strlit("http://");
    reveal_strlit("vless://");
    if has_prefix(s, "https://"@) {
        assert(s.take(8)[0] == s[0]);
        assert(s[0] == 'h');
    }
    if has_prefix(s, "http://"@) {
        assert(s.take(7)[0] == s[0]);
        assert(s.take(7)[4] == s[4]);
        assert(s[0] == 'h' && s[4] == ':');
        if has_prefix(s, "https://"@) {
            assert(s.take(8)[4] == s[4]);
        }
    }
    if has_prefix(s, "vless://"@) {
        assert(s.take(8)[0] == s[0]);
        assert(s[0] == 'v');
    }
}

/// Recognizes a pasted HTTP or HTTPS subscription or `vless://` share link.
pub fn validate_subscription_preview(input: &str) -> (r: Result<
    SubscriptionPreview,
    SubscriptionInputError,
>)
    ensures
        r is Ok <==> recognized_source(input@) is Ok,
        r matches Err(e) ==> recognized_source(input@) == Err::<
            (SourceKind, Option<NodePreviewView>),
            SubscriptionInputError,
        >(e),
        r matches Ok(p) ==> recognized_source(input@) matches Ok((kind, node)) && p.kind == kind
            && match node {
            Some(n) => p.nodes@.len() == 1 && p.nodes@[0]@ == n,
            None => p.nodes@.len() == 0,
        },
{
    if input.is_empty() {
        return Err(SubscriptionInputError::Empty);
    }
    if input.len() > MAX_SUBSCRIPTION_BYTES {
        return Err(SubscriptionInputError::TooLong);
    }
    let v = chars_of(input);
    let vless = chars_of("vless://");
    if starts_with(v.as_slice(), vless.as_slice()) {
        let source = VlessSource::parse(input)?;
        return Ok(source.into_preview());
    }
    let subscription = match SecretUrl::parse_subscription(input) {
        Ok(s) => s,
        Err(_) => return Err(SubscriptionInputError::UnsupportedSource),
    };
    let https = chars_of("https://");
    let kind = if starts_with(v.as_slice(), https.as_slice()) {
        SourceKind::HttpsSubscription
    } else {
        SourceKind::HttpSubscription
    };
    if Profile::qx_default(subscription).is_err() {
        return Err(SubscriptionInputError::InvalidPreset);
    }
    Ok(SubscriptionPreview { kind, nodes: Vec::new() })
}

} // verus!
