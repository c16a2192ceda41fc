//! The typed protocol of the privileged macOS helper: its `started <pid>` and
//! `running <pid> v3` / `stopped v3 <reason>` responses, and the one Mihomo launch shape it
//! accepts.
use vstd::prelude::*;

use crate::text::{split_all, split_chars, str_equal};
use crate::text::{
    chars_equal, chars_of, decimal, is_ascii_alphanumeric, parse_unsigned, parse_unsigned_exec,
    push_decimal, string_of, views, words, words_of,
};

verus! {

/// The protocol version that a current helper reports.
pub open spec fn protocol_version() -> Seq<char> {
    "v3"@
}

/// What `String::from_utf8_lossy` gives for `bytes`.
pub uninterp spec fn utf8_lossy(bytes: Seq<u8>) -> Seq<char>;

/// Decodes helper output; `String::from_utf8_lossy` replaces invalid sequences and returns
/// valid UTF-8 unchanged.
#[verifier::external_body]
fn decode_lossy(bytes: &[u8]) -> (r: String)
    ensures
        r@ == utf8_lossy(bytes@),
        vstd::utf8::valid_utf8(bytes@) ==> r@ == vstd::utf8::decode_utf8(bytes@),
{
    String::from_utf8_lossy(bytes).into_owned()
}

/// Why a helper response was refused.
#[derive(Clone, Copy, Debug, PartialEq, Eq, Structural)]
pub enum HelperError {
    UnexpectedResponse,
    InvalidProcessIdentifier,
}

impl HelperError {
    pub fn message(self) -> (r: &'static str)
        ensures
            r@ == match self {
                HelperError::UnexpectedResponse => "privileged helper returned an unexpected response"@,
                HelperError::InvalidProcessIdentifier => "privileged helper returned an invalid process identifier"@,
            },
    {
        match self {
            HelperError::UnexpectedResponse => "privileged helper returned an unexpected response",
            HelperError::InvalidProcessIdentifier => {
                "privileged helper returned an invalid process identifier"
            },
        }
    }
}

/// What the helper reports about the Mihomo process it owns.
#[derive(Debug, PartialEq, Eq)]
pub enum HelperStatus {
    Running { pid: u32 },
    Stopped { reason: String },
}

/// The words of a helper response.
pub open spec fn response_fields(bytes: Seq<u8>) -> Seq<Seq<char>> {
    words(utf8_lossy(bytes))
}

/// A process identifier: a decimal `u32` that is not zero.
pub open spec fn pid_value(field: Seq<char>) -> Option<u32> {
    match parse_unsigned(field, u32::MAX as nat) {
        Some(n) if n > 0 => Some(n as u32),
        _ => None,
    }
}

/// What `parse_pid` gives for the words of a response.
pub open spec fn pid_response(fields: Seq<Seq<char>>, prefix: Seq<char>) -> Result<u32, HelperError> {
    if fields.len() == 0 || fields[0] != prefix {
        Err(HelperError::UnexpectedResponse)
    } else if fields.len() != 2 {
        Err(HelperError::InvalidProcessIdentifier)
    } else {
        match pid_value(fields[1]) {
            Some(pid) => Ok(pid),
            None => Err(HelperError::InvalidProcessIdentifier),
        }
    }
}

pub open spec fn is_reason_char(c: char) -> bool {
    is_ascii_alphanumeric(c) || c == '-' || c == '_'
}

/// The status that a response reports, as the words of a running or stopped line of the
/// current protocol; `None` for any other response.
pub open spec fn status_response(fields: Seq<Seq<char>>) -> Option<(bool, u32, Seq<char>)> {
    if fields.len() == 3 && fields[0] == "running"@ && fields[2] == protocol_version() {
        match pid_value(fields[1]) {
            Some(pid) => Some((true, pid, Seq::empty())),
            None => None,
        }
    } else if fields.len() == 3 && fields[0] == "stopped"@ && fields[1] == protocol_version()
        && forall|i: int| 0 <= i < fields[2].len() ==> is_reason_char(#[trigger] fields[2][i]) {
        Some((false, 0, fields[2]))
    } else {
        None
    }
}

pub open spec fn status_matches(r: Result<HelperStatus, HelperError>, fields: Seq<Seq<char>>) -> bool {
    match status_response(fields) {
        Some((true, pid, _)) => r matches Ok(HelperStatus::Running { pid: p }) && p == pid,
        Some((false, _, reason)) => r matches Ok(HelperStatus::Stopped { reason: t }) && t@ == reason,
        None => r == Err::<HelperStatus, HelperError>(HelperError::UnexpectedResponse),
    }
}

fn field_is(field: &Vec<char>, expected: &str) -> (r: bool)
    ensures
        r == (field@ == expected@),
{
    let e = chars_of(expected);
    chars_equal(field.as_slice(), e.as_slice())
}

fn parse_pid_field(field: &Vec<char>) -> (r: Option<u32>)
    ensures
        r == pid_value(field@),
{
    match parse_unsigned_exec(field.as_slice(), u32::MAX as u128) {
        Some(n) => {
            if n > 0 {
                Some(n as u32)
            } else {
                None
            }
        },
        None => None,
    }
}

/// Reads the process identifier of a `<prefix> <pid>` response.
pub fn parse_pid(bytes: &[u8], prefix: &str) -> (r: Result<u32, HelperError>)
    ensures
        r == pid_response(response_fields(bytes@), prefix@),
        vstd::utf8::valid_utf8(bytes@) ==> r == pid_response(
            words(vstd::utf8::decode_utf8(bytes@)),
            prefix@,
        ),
{
    let output = decode_lossy(bytes);
    let text = chars_of(output.as_str());
    let fields = words_of(text.as_slice());
    let ghost f = views(fields@);
    if fields.len() == 0 || !field_is(&fields[0], prefix) {
        return Err(HelperError::UnexpectedResponse);
    }
    if fields.len() != 2 {
        return Err(HelperError::InvalidProcessIdentifier);
    }
    match parse_pid_field(&fields[1]) {
        Some(pid) => Ok(pid),
        None => Err(HelperError::InvalidProcessIdentifier),
    }
}

/// A word that no white space breaks.
pub open spec fn is_word(w: Seq<char>) -> bool {
    w.len() > 0 && forall|i: int| 0 <= i < w.len() ==> !crate::text::is_whitespace(#[trigger] w[i])
}

proof fn lemma_words_lead(w: Seq<char>, rest: Seq<char>)
    requires
        is_word(w),
    ensures
        words(w + seq![' '] + rest) == seq![w] + words(rest),
        words(w) == seq![w],
{
    let s = w + seq![' '] + rest;
    let k = w.len() as int;
    assert forall|j: int| 0 <= j < k implies !crate::text::is_whitespace(#[trigger] s[j]) by {
        assert(s[j] == w[j]);
    }
    crate::text::lemma_ws_end(s, k);
    assert(s.take(k) =~= w);
    let t = s.skip(k);
    assert(t =~= seq![' '] + rest);
    assert(t.drop_first() =~= rest);
    assert(crate::text::is_whitespace(t[0]));
    assert(words(t) == words(rest));
    assert(!crate::text::is_whitespace(s[0]));
    assert(words(s) == seq![s.take(k)] + words(t));
    crate::text::lemma_ws_end(w, k);
    assert(w.take(k) =~= w);
    assert(w.skip(k) =~= Seq::<char>::empty());
    assert(words(Seq::<char>::empty()) == Seq::<Seq<char>>::empty());
    assert(seq![w] + Seq::<Seq<char>>::empty() =~= seq![w]);
}

/// The helper's answers read back as what they report: `<prefix> <pid>` gives the process
/// identifier, `running <pid> v3` a running process with that identifier and
/// `stopped v3 <reason>` a stop for that reason.
pub proof fn lemma_helper_responses_read_back(pid: u32, reason: Seq<char>, prefix: Seq<char>)
    requires
        pid > 0,
        is_word(prefix),
        reason.len() > 0,
        forall|i: int| 0 <= i < reason.len() ==> is_reason_char(#[trigger] reason[i]),
    ensures
        pid_response(words(prefix + " "@ + decimal(pid as nat)), prefix) == Ok::<u32, HelperError>(pid),
        status_response(words("running "@ + decimal(pid as nat) + " v3"@)) == Some(
            (true, pid, Seq::<char>::empty()),
        ),
        status_response(words("stopped v3 "@ + reason)) == Some((false, 0u32, reason)),
{
    reveal_strlit(" ");
    reveal_strlit("running ");
    reveal_strlit(" v3");
    reveal_strlit("stopped v3 ");
    reveal_strlit("running");
    reveal_strlit("stopped");
    reveal_strlit("v3");
    let d = decimal(pid as nat);
    crate::diagnostics::lemma_decimal_parses(pid as nat, u32::MAX as nat);
    crate::diagnostics::lemma_decimal_digits(pid as nat);
    assert(is_word(d)) by {
        assert forall|i: int| 0 <= i < d.len() implies !crate::text::is_whitespace(#[trigger] d[i]) by {
            assert(crate::text::is_ascii_digit(d[i]));
        }
    }
    assert(is_word(reason)) by {
        assert forall|i: int| 0 <= i < reason.len() implies !crate::text::is_whitespace(
            #[trigger] reason[i],
        ) by {
            assert(is_reason_char(reason[i]));
        }
    }
    assert(is_word("running"@));
    assert(is_word("stopped"@));
    assert(is_word("v3"@));
    lemma_words_lead(prefix, d);
    assert(prefix + " "@ + d =~= prefix + seq![' '] + d);
    lemma_words_lead(d, "v3"@);
    lemma_words_lead("running"@, d + seq![' '] + "v3"@);
    assert("running "@ + d + " v3"@ =~= "running"@ + seq![' '] + (d + seq![' '] + "v3"@));
    let x = d + seq![' '] + "v3"@;
    lemma_words_lead("v3"@, reason);
    assert(words(x) == seq![d] + seq!["v3"@]);
    assert(words("running "@ + d + " v3"@) == seq!["running"@] + words(x));
    assert(words("running "@ + d + " v3"@) =~= seq!["running"@, d, "v3"@]);
    lemma_words_lead("v3"@, reason);
    lemma_words_lead(reason, Seq::empty());
    lemma_words_lead("stopped"@, "v3"@ + seq![' '] + reason);
    assert("stopped v3 "@ + reason =~= "stopped"@ + seq![' '] + ("v3"@ + seq![' '] + reason));
    let y = "v3"@ + seq![' '] + reason;
    assert(words(y) == seq!["v3"@] + seq![reason]);
    assert(words("stopped v3 "@ + reason) == seq!["stopped"@] + words(y));
    assert(words("stopped v3 "@ + reason) =~= seq!["stopped"@, "v3"@, reason]);
    assert(words(prefix + " "@ + d) =~= seq![prefix, d]);
}

/// The error of a response that does not follow the protocol.
pub fn invalid_helper_response() -> (r: HelperError)
    ensures
        r == HelperError::UnexpectedResponse,
{
    HelperError::UnexpectedResponse
}

fn is_reason(field: &Vec<char>) -> (r: bool)
    ensures
        r == forall|i: int| 0 <= i < field@.len() ==> is_reason_char(#[trigger] field@[i]),
{
    let mut i: usize = 0;
    while i < field.len()
        invariant
            i <= field.len(),
            forall|j: int| 0 <= j < i ==> is_reason_char(#[trigger] field@[j]),
        decreases field.len() - i,
    {
        let c = field[i];
        if !(crate::text::char_is_ascii_alphanumeric(c) || c == '-' || c == '_') {
            return false;
        }
        i = i + 1;
    }
    true
}

/// Reads a status response of the current protocol.
pub fn parse_helper_status(bytes: &[u8]) -> (r: Result<HelperStatus, HelperError>)
    ensures
        status_matches(r, response_fields(bytes@)),
        vstd::utf8::valid_utf8(bytes@) ==> status_matches(
            r,
            words(vstd::utf8::decode_utf8(bytes@)),
        ),
{
    let output = decode_lossy(bytes);
    let text = chars_of(output.as_str());
    let fields = words_of(text.as_slice());
    if fields.len() == 0 {
        return Err(invalid_helper_response());
    }
    if field_is(&fields[0], "running") {
        proof {
            reveal_strlit("running");
            reveal_strlit("stopped");
            assert("running"@[0] != "stopped"@[0]);
        }
        if fields.len() < 2 {
            return Err(invalid_helper_response());
        }
        let pid = match parse_pid_field(&fields[1]) {
            Some(pid) => pid,
            None => return Err(invalid_helper_response()),
        };
        if fields.len() != 3 || !field_is(&fields[2], "v3") {
            return Err(invalid_helper_response());
        }
        return Ok(HelperStatus::Running { pid });
    }
    if field_is(&fields[0], "stopped") {
        if fields.len() < 2 || !field_is(&fields[1], "v3") {
            return Err(invalid_helper_response());
        }
        if fields.len() != 3 || !is_reason(&fields[2]) {
            return Err(invalid_helper_response());
        }
        return Ok(HelperStatus::Stopped { reason: string_of(fields[2].as_slice()) });
    }
    Err(invalid_helper_response())
}

/// Whether the helper speaks the current protocol.
pub fn is_current_status(bytes: &[u8]) -> (r: bool)
    ensures
        r == (status_response(response_fields(bytes@)) is Some),
        vstd::utf8::valid_utf8(bytes@) ==> r == (status_response(
            words(vstd::utf8::decode_utf8(bytes@)),
        ) is Some),
{
    parse_helper_status(bytes).is_ok()
}

/// A diagnostic summary of a status response that holds no free-form text.
pub fn helper_status_detail(bytes: &[u8]) -> (r: String)
    ensures
        r@ == match status_response(response_fields(bytes@)) {
            Some((true, pid, _)) => "state=running pid="@ + decimal(pid as nat),
            Some((false, _, reason)) => "state=stopped reason="@ + reason,
            None => "state=invalid_response"@,
        },
        vstd::utf8::valid_utf8(bytes@) ==> r@ == match status_response(
            words(vstd::utf8::decode_utf8(bytes@)),
        ) {
            Some((true, pid, _)) => "state=running pid="@ + decimal(pid as nat),
            Some((false, _, reason)) => "state=stopped reason="@ + reason,
            None => "state=invalid_response"@,
        },
{
    match parse_helper_status(bytes) {
        Ok(HelperStatus::Running { pid }) => {
            let mut out = "state=running pid=".to_owned();
            push_decimal(&mut out, pid as u128);
            out
        },
        Ok(HelperStatus::Stopped { reason }) => {
            let mut out = "state=stopped reason=".to_owned();
            out.append(reason.as_str());
            out
        },
        Err(_) => "state=invalid_response".to_owned(),
    }
}

/// A component of a macOS (Unix) path, as `Path::components` gives it.
pub enum PathComponent {
    Root,
    Current,
    Parent,
    Normal(Seq<char>),
}

/// The component of one `/`-separated segment; `.` counts only at the start of a relative
/// path, and empty segments count never.
pub open spec fn segment_component(t: Seq<char>, at_start: bool) -> Option<PathComponent> {
    if t.len() == 0 {
        None
    } else if t == seq!['.'] {
        if at_start {
            Some(PathComponent::Current)
        } else {
            None
        }
    } else if t == seq!['.', '.'] {
        Some(PathComponent::Parent)
    } else {
        Some(PathComponent::Normal(t))
    }
}

pub open spec fn optional(o: Option<PathComponent>) -> Seq<PathComponent> {
    match o {
        Some(c) => seq![c],
        None => Seq::empty(),
    }
}

pub open spec fn segment_components(segs: Seq<Seq<char>>, rooted: bool) -> Seq<PathComponent>
    decreases segs.len(),
{
    if segs.len() == 0 {
        Seq::empty()
    } else {
        segment_components(segs.drop_last(), rooted) + optional(
            segment_component(segs.last(), segs.len() == 1 && !rooted),
        )
    }
}

/// The components of a Unix path: the root when it starts with `/`, then its segments without
/// repeated separators and without `.` after the start.
pub open spec fn path_components(s: Seq<char>) -> Seq<PathComponent> {
    let rooted = s.len() > 0 && s[0] == '/';
    (if rooted {
        seq![PathComponent::Root]
    } else {
        Seq::empty()
    }) + segment_components(split_all(s, '/'), rooted)
}

/// The components of a path's parent, as `Path::parent` gives it: none for the root and for
/// an empty path.
pub open spec fn parent_components(s: Seq<char>) -> Option<Seq<PathComponent>> {
    let c = path_components(s);
    if c.len() > 0 && !(c.last() is Root) {
        Some(c.drop_last())
    } else {
        None
    }
}

/// The paths that a Mihomo launch names, taken from its arguments.
pub struct LaunchRequest {
    pub data_dir: String,
    pub config: String,
    pub controller: String,
}

/// Why the helper refuses a launch.
#[derive(Clone, Copy, Debug, PartialEq, Eq, Structural)]
pub enum LaunchShapeError {
    UnexpectedShape,
    SplitBoundary,
}

impl LaunchShapeError {
    pub fn message(self) -> (r: &'static str)
        ensures
            r@ == match self {
                LaunchShapeError::UnexpectedShape => "privileged helper rejected an unexpected Mihomo command shape"@,
                LaunchShapeError::SplitBoundary => "privileged helper requires config and working directory to share one boundary"@,
            },
    {
        match self {
            LaunchShapeError::UnexpectedShape => {
                "privileged helper rejected an unexpected Mihomo command shape"
            },
            LaunchShapeError::SplitBoundary => {
                "privileged helper requires config and working directory to share one boundary"
            },
        }
    }
}

pub open spec fn strings_view(v: Seq<String>) -> Seq<Seq<char>> {
    v.map_values(|x: String| x@)
}

/// The only launch the helper starts: `-d <dir> -f <config> -ext-ctl-unix <socket>`, run in
/// `<dir>`, with the configuration and the socket directly inside `<dir>`.
pub open spec fn launch_request(args: Seq<Seq<char>>, current_dir: Seq<char>) -> Result<
    (Seq<char>, Seq<char>, Seq<char>),
    LaunchShapeError,
> {
    if args.len() != 6 || args[0] != "-d"@ || args[2] != "-f"@ || args[4] != "-ext-ctl-unix"@ {
        Err(LaunchShapeError::UnexpectedShape)
    } else if path_components(args[1]) != path_components(current_dir) || parent_components(
        args[3],
    ) != Some(path_components(args[1])) || parent_components(args[5]) != Some(
        path_components(args[1]),
    ) {
        Err(LaunchShapeError::SplitBoundary)
    } else {
        Ok((args[1], args[3], args[5]))
    }
}

/// One path component.
enum Part {
    Root,
    Current,
    Parent,
    Normal(Vec<char>),
}

spec fn part_view(p: Part) -> PathComponent {
    match p {
        Part::Root => PathComponent::Root,
        Part::Current => PathComponent::Current,
        Part::Parent => PathComponent::Parent,
        Part::Normal(v) => PathComponent::Normal(v@),
    }
}

spec fn parts_view(v: Seq<Part>) -> Seq<PathComponent> {
    v.map_values(|p: Part| part_view(p))
}

fn segment_part(t: &Vec<char>, at_start: bool) -> (r: Option<Part>)
    ensures
        match r {
            Some(p) => segment_component(t@, at_start) == Some(part_view(p)),
            None => segment_component(t@, at_start) is None,
        },
{
    if t.len() == 0 {
        None
    } else if t.len() == 1 && t[0] == '.' {
        assert(t@ =~= seq!['.']);
        if at_start {
            Some(Part::Current)
        } else {
            None
        }
    } else if t.len() == 2 && t[0] == '.' && t[1] == '.' {
        assert(t@ =~= seq!['.', '.']);
        Some(Part::Parent)
    } else {
        assert(t@ != seq!['.']) by {
            if t.len() == 1 {
                assert(t@[0] != '.');
            }
        }
        assert(t@ != seq!['.', '.']) by {
            if t.len() == 2 {
                assert(t@[0] != '.' || t@[1] != '.');
            }
        }
        Some(Part::Normal(t.clone()))
    }
}

fn components_of(path: &str) -> (r: Vec<Part>)
    ensures
        parts_view(r@) == path_components(path@),
{
    let v = chars_of(path);
    let rooted = v.len() > 0 && v[0] == '/';
    let segs = split_chars(v.as_slice(), '/', None);
    let ghost gs = split_all(v@, '/');
    let mut out: Vec<Part> = Vec::new();
    if rooted {
        out.push(Part::Root);
    }
    let ghost head = parts_view(out@);
    assert(head == (if rooted {
        seq![PathComponent::Root]
    } else {
        Seq::empty()
    }));
    let mut i: usize = 0;
    assert(gs.take(0) =~= Seq::<Seq<char>>::empty());
    while i < segs.len()
        invariant
            i <= segs.len(),
            views(segs@) == gs,
            parts_view(out@) == head + segment_components(gs.take(i as int), rooted),
        decreases segs.len() - i,
    {
        let ghost before = parts_view(out@);
        assert(gs.take(i + 1).drop_last() =~= gs.take(i as int));
        assert(gs.take(i + 1).last() == segs@[i as int]@);
        match segment_part(&segs[i], i == 0 && !rooted) {
            Some(p) => {
                out.push(p);
                assert(parts_view(out@) =~= before.push(part_view(p)));
            },
            None => {},
        }
        i = i + 1;
        assert(parts_view(out@) =~= head + segment_components(gs.take(i as int), rooted));
    }
    assert(gs.take(segs.len() as int) =~= gs);
    out
}

fn part_equal(a: &Part, b: &Part) -> (r: bool)
    ensures
        r == (part_view(*a) == part_view(*b)),
{
    match (a, b) {
        (Part::Root, Part::Root) => true,
        (Part::Current, Part::Current) => true,
        (Part::Parent, Part::Parent) => true,
        (Part::Normal(x), Part::Normal(y)) => chars_equal(x.as_slice(), y.as_slice()),
        _ => false,
    }
}

/// Whether the first `n` components of `a` are the components of `b`.
fn parts_prefix_equal(a: &Vec<Part>, n: usize, b: &Vec<Part>) -> (r: bool)
    requires
        n <= a.len(),
    ensures
        r == (parts_view(a@).take(n as int) == parts_view(b@)),
{
    if n != b.len() {
        assert(parts_view(a@).take(n as int).len() != parts_view(b@).len());
        return false;
    }
    let mut i: usize = 0;
    while i < n
        invariant
            i <= n <= a.len(),
            n == b.len(),
            forall|j: int| 0 <= j < i ==> parts_view(a@)[j] == parts_view(b@)[j],
        decreases n - i,
    {
        if !part_equal(&a[i], &b[i]) {
            assert(parts_view(a@).take(n as int)[i as int] != parts_view(b@)[i as int]);
            return false;
        }
        i = i + 1;
    }
    assert(parts_view(a@).take(n as int) =~= parts_view(b@));
    true
}

/// Checks that a Mihomo launch has the one shape the helper starts and returns the paths it
/// names.
pub fn parse_launch(args: &Vec<String>, current_dir: &str) -> (r: Result<
    LaunchRequest,
    LaunchShapeError,
>)
    ensures
        match launch_request(strings_view(args@), current_dir@) {
            Ok((d, c, s)) => r matches Ok(q) && q.data_dir@ == d && q.config@ == c
                && q.controller@ == s,
            Err(e) => r matches Err(f) && f == e,
        },
{
    let ghost a = strings_view(args@);
    if args.len() != 6 {
        return Err(LaunchShapeError::UnexpectedShape);
    }
    assert(a[0] == args@[0]@ && a[1] == args@[1]@ && a[2] == args@[2]@);
    assert(a[3] == args@[3]@ && a[4] == args@[4]@ && a[5] == args@[5]@);
    if !str_equal(args[0].as_str(), "-d") || !str_equal(args[2].as_str(), "-f") || !str_equal(
        args[4].as_str(),
        "-ext-ctl-unix",
    ) {
        return Err(LaunchShapeError::UnexpectedShape);
    }
    let data_dir = components_of(args[1].as_str());
    let dir = components_of(current_dir);
    let config = components_of(args[3].as_str());
    let controller = components_of(args[5].as_str());
    assert(parts_view(data_dir@).take(data_dir.len() as int) =~= parts_view(data_dir@));
    let same_dir = parts_prefix_equal(&data_dir, data_dir.len(), &dir);
    let config_inside = config.len() > 0 && !matches!(config[config.len() - 1], Part::Root)
        && parts_prefix_equal(&config, config.len() - 1, &data_dir);
    let controller_inside = controller.len() > 0 && !matches!(
        controller[controller.len() - 1],
        Part::Root
    ) && parts_prefix_equal(&controller, controller.len() - 1, &data_dir);
    proof {
        if config.len() > 0 {
            assert(parts_view(config@).last() == part_view(config@[config.len() - 1]));
            assert(parts_view(config@).drop_last() =~= parts_view(config@).take(
                config.len() - 1,
            ));
        }
        if controller.len() > 0 {
            assert(parts_view(controller@).last() == part_view(
                controller@[controller.len() - 1],
            ));
            assert(parts_view(controller@).drop_last() =~= parts_view(controller@).take(
                controller.len() - 1,
            ));
        }
    }
    if !same_dir || !config_inside || !controller_inside {
        return Err(LaunchShapeError::SplitBoundary);
    }
    Ok(
        LaunchRequest {
            data_dir: args[1].clone(),
            config: args[3].clone(),
            controller: args[5].clone(),
        },
    )
}

} // verus!
