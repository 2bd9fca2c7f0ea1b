//! Hostname grammar, URL and HTML text, and the port and exit-code rules.

use vstd::prelude::*;
use crate::text::{
    before_first, char_is_lower_alnum, char_lower, chars_of, contains_seq, decimal, ends_with,
    find_char, find_seq, first_index, first_occurrence, is_lower_alnum, is_whitespace, join_path, lemma_first_index,
    lemma_first_occurrence, lower_eq, lower_range, lower_seq, occurs_at, parse_i32_range,
    parse_signed, parse_unsigned, parse_unsigned_range, path_join, push_decimal, push_range,
    push_str, range_ends_with, range_starts_with, starts_with, str_eq, string_of, string_of_range,
    trim, trim_bounds, trim_end, trim_start,
};

verus! {

/// The port the proxy listens on when none is configured.
pub const DEFAULT_PROXY_PORT: u16 = 1355;

/// Ports below this one can only be bound by root.
pub const PRIVILEGED_PORT_THRESHOLD: u16 = 1024;

/// The lowest port handed to an application.
pub const MIN_APP_PORT: u16 = 4000;

/// The highest port handed to an application.
pub const MAX_APP_PORT: u16 = 4999;

/// How many random ports are tried before the range is scanned in order.
pub const RANDOM_PORT_ATTEMPTS: usize = 50;

/// How often a starting proxy is polled for readiness.
pub const WAIT_FOR_PROXY_MAX_ATTEMPTS: u32 = 20;

/// Milliseconds between two readiness polls.
pub const WAIT_FOR_PROXY_INTERVAL_MS: u64 = 250;

/// Read and write timeout of the readiness probe, in milliseconds.
pub const SOCKET_TIMEOUT_MS: u64 = 500;

/// The text of a URL under which `hostname` is served by a proxy on
/// `proxy_port`: the port is left out when it is 80.
pub open spec fn format_url_spec(hostname: Seq<char>, proxy_port: u16) -> Seq<char> {
    if proxy_port == 80 {
        "http://"@ + hostname
    } else {
        "http://"@ + hostname + seq![':'] + decimal(proxy_port as nat)
    }
}

/// Formats the URL of `hostname` behind a proxy on `proxy_port`.
pub fn format_url(hostname: &str, proxy_port: u16) -> (url: String)
    ensures
        url@ == format_url_spec(hostname@, proxy_port),
{
    let mut out: Vec<char> = Vec::new();
    push_str(&mut out, "http://");
    push_str(&mut out, hostname);
    if proxy_port != 80 {
        out.push(':');
        push_decimal(&mut out, proxy_port as u32);
    }
    assert(out@ =~= format_url_spec(hostname@, proxy_port));
    string_of(&out)
}

/// What one character becomes in HTML text.
pub open spec fn escape_char(c: char) -> Seq<char> {
    if c == '&' {
        "&amp;"@
    } else if c == '<' {
        "&lt;"@
    } else if c == '>' {
        "&gt;"@
    } else if c == '"' {
        "&quot;"@
    } else if c == '\'' {
        "&#39;"@
    } else {
        seq![c]
    }
}

/// `s` with each character replaced by its [`escape_char`].
pub open spec fn escape_html_spec(s: Seq<char>) -> Seq<char>
    decreases s.len(),
{
    if s.len() == 0 {
        Seq::empty()
    } else {
        escape_html_spec(s.drop_last()) + escape_char(s.last())
    }
}

/// Whether `c` can open or close markup or an attribute value.
pub open spec fn is_markup_char(c: char) -> bool {
    c == '<' || c == '>' || c == '"' || c == '\''
}

/// Escaped text holds no character that opens or closes markup or an
/// attribute value.
pub proof fn lemma_escape_html_is_inert(s: Seq<char>)
    ensures
        forall|i: int| 0 <= i < escape_html_spec(s).len() ==> !is_markup_char(escape_html_spec(s)[i]),
    decreases s.len(),
{
    if s.len() > 0 {
        lemma_escape_html_is_inert(s.drop_last());
        reveal_strlit("&amp;");
        reveal_strlit("&lt;");
        reveal_strlit("&gt;");
        reveal_strlit("&quot;");
        reveal_strlit("&#39;");
        let head = escape_html_spec(s.drop_last());
        let tail = escape_char(s.last());
        assert forall|i: int| 0 <= i < escape_html_spec(s).len() implies !is_markup_char(
            escape_html_spec(s)[i],
        ) by {
            if i >= head.len() {
                assert(escape_html_spec(s)[i] == tail[i - head.len()]);
            }
        }
    }
}

/// Escapes `s` for use in HTML text and attribute values.
pub fn escape_html(s: &str) -> (out: String)
    ensures
        out@ == escape_html_spec(s@),
{
    let v = chars_of(s);
    let mut out: Vec<char> = Vec::new();
    let mut i: usize = 0;
    while i < v.len()
        invariant
            i <= v.len(),
            out@ == escape_html_spec(v@.take(i as int)),
        decreases v.len() - i,
    {
        let c: char = v[i];
        let ghost before = out@;
        if c == '&' {
            push_str(&mut out, "&amp;");
        } else if c == '<' {
            push_str(&mut out, "&lt;");
        } else if c == '>' {
            push_str(&mut out, "&gt;");
        } else if c == '"' {
            push_str(&mut out, "&quot;");
        } else if c == '\'' {
            push_str(&mut out, "&#39;");
        } else {
            out.push(c);
            assert(out@ =~= before + seq![c]);
        }
        assert(out@ == before + escape_char(c));
        assert(v@.take(i + 1).drop_last() =~= v@.take(i as int));
        i = i + 1;
    }
    assert(v@.take(v.len() as int) =~= v@);
    string_of(&out)
}

/// Why a hostname was refused.
#[derive(Debug, Clone, Copy, PartialEq, Eq, Structural)]
pub enum HostnameFault {
    /// Nothing is left of the input once it is normalized.
    Empty,
    /// Nothing stands before `.localhost`.
    EmptyLabel,
    /// The label holds two dots in a row.
    ConsecutiveDots,
    /// The label holds a character outside the grammar, or starts or ends
    /// with something other than a letter or a digit.
    InvalidCharacters,
}

/// A refused hostname: the reason, and the label that was looked at.
#[derive(Debug, Clone)]
pub struct HostnameError {
    pub fault: HostnameFault,
    pub label: String,
}

/// The text shown for a refusal with the given reason and label.
pub open spec fn message_spec(fault: HostnameFault, label: Seq<char>) -> Seq<char> {
    match fault {
        HostnameFault::Empty => "Hostname cannot be empty"@,
        HostnameFault::EmptyLabel => "Hostname label cannot be empty"@,
        HostnameFault::ConsecutiveDots => "Invalid hostname \""@ + label
            + "\": consecutive dots are not allowed"@,
        HostnameFault::InvalidCharacters => "Invalid hostname \""@ + label
            + "\": must contain only lowercase letters, digits, hyphens, and dots"@,
    }
}

impl HostnameError {
    /// The text shown to the user for this refusal.
    pub fn message(&self) -> (m: String)
        ensures
            m@ == message_spec(self.fault, self.label@),
    {
        let mut out: Vec<char> = Vec::new();
        match self.fault {
            HostnameFault::Empty => {
                push_str(&mut out, "Hostname cannot be empty");
            },
            HostnameFault::EmptyLabel => {
                push_str(&mut out, "Hostname label cannot be empty");
            },
            HostnameFault::ConsecutiveDots => {
                push_str(&mut out, "Invalid hostname \"");
                push_str(&mut out, self.label.as_str());
                push_str(&mut out, "\": consecutive dots are not allowed");
            },
            HostnameFault::InvalidCharacters => {
                push_str(&mut out, "Invalid hostname \"");
                push_str(&mut out, self.label.as_str());
                push_str(
                    &mut out,
                    "\": must contain only lowercase letters, digits, hyphens, and dots",
                );
            },
        }
        assert(out@ =~= message_spec(self.fault, self.label@));
        string_of(&out)
    }
}

/// The suffix that every registered hostname ends with.
pub open spec fn localhost_suffix() -> Seq<char> {
    ".localhost"@
}

/// `s` without a leading `https://` or `http://`.
pub open spec fn strip_scheme(s: Seq<char>) -> Seq<char> {
    if starts_with(s, "https://"@) {
        s.skip("https://"@.len() as int)
    } else if starts_with(s, "http://"@) {
        s.skip("http://"@.len() as int)
    } else {
        s
    }
}

/// The host named by `input`: trimmed, without scheme, cut at the first
/// `/`, in lower case.
pub open spec fn host_part(input: Seq<char>) -> Seq<char> {
    lower_seq(before_first(strip_scheme(trim(input)), '/'))
}

/// `h`, with `.localhost` appended unless it already ends with it.
pub open spec fn with_suffix(h: Seq<char>) -> Seq<char> {
    if ends_with(h, localhost_suffix()) {
        h
    } else {
        h + localhost_suffix()
    }
}

/// The part of `h` before a final `.localhost`; all of `h` where it has
/// no such ending.
pub open spec fn label_of(h: Seq<char>) -> Seq<char> {
    if ends_with(h, localhost_suffix()) {
        h.take(h.len() - localhost_suffix().len())
    } else {
        h
    }
}

/// Whether `l` holds a dot at `i` and another right after it.
pub open spec fn dots_at(l: Seq<char>, i: int) -> bool {
    0 <= i && i + 1 < l.len() && l[i] == '.' && l[i + 1] == '.'
}

/// Whether `l` holds two dots in a row.
pub open spec fn has_double_dot(l: Seq<char>) -> bool {
    exists|i: int| dots_at(l, i)
}

/// Whether `c` may stand inside a label.
pub open spec fn is_label_char(c: char) -> bool {
    is_lower_alnum(c) || c == '-' || c == '.'
}

/// Whether `l` is not empty, starts and ends with a lower-case letter or
/// a digit, and holds only such characters, hyphens and dots between.
pub open spec fn label_chars_ok(l: Seq<char>) -> bool {
    &&& l.len() > 0
    &&& is_lower_alnum(l[0])
    &&& is_lower_alnum(l.last())
    &&& forall|i: int| 0 < i < l.len() - 1 ==> is_label_char(#[trigger] l[i])
}

/// The reason for which the hostname `h` is refused, if it is.
pub open spec fn hostname_fault(h: Seq<char>) -> Option<HostnameFault> {
    let l = label_of(h);
    if l.len() == 0 {
        Some(HostnameFault::EmptyLabel)
    } else if has_double_dot(l) {
        Some(HostnameFault::ConsecutiveDots)
    } else if !label_chars_ok(l) {
        Some(HostnameFault::InvalidCharacters)
    } else {
        None
    }
}

/// What [`parse_hostname`] makes of `input`: the full hostname, or the
/// reason for refusing it.
pub open spec fn parse_hostname_spec(input: Seq<char>) -> Result<Seq<char>, HostnameFault> {
    let h = host_part(input);
    if h.len() == 0 || h == localhost_suffix() {
        Err(HostnameFault::Empty)
    } else {
        match hostname_fault(with_suffix(h)) {
            Some(f) => Err(f),
            None => Ok(with_suffix(h)),
        }
    }
}

/// The length of the label of `h`.
fn label_len(h: &Vec<char>) -> (n: usize)
    ensures
        n <= h.len(),
        h@.take(n as int) == label_of(h@),
{
    let suffix = chars_of(".localhost");
    proof {
        reveal_strlit(".localhost");
        assert(h@.subrange(0, h.len() as int) =~= h@);
    }
    if range_ends_with(h, 0, h.len(), &suffix) {
        h.len() - suffix.len()
    } else {
        assert(h@.take(h.len() as int) =~= h@);
        h.len()
    }
}

/// Looks for what the grammar forbids in the label `h[..n]`.
fn check_label(h: &Vec<char>, n: usize) -> (r: Option<HostnameFault>)
    requires
        n <= h.len(),
        h@.take(n as int) == label_of(h@),
    ensures
        r == hostname_fault(h@),
{
    let ghost l = h@.take(n as int);
    if n == 0 {
        return Some(HostnameFault::EmptyLabel);
    }
    let mut i: usize = 0;
    while i + 1 < n
        invariant
            i < n <= h.len(),
            l == h@.take(n as int),
            l == label_of(h@),
            forall|j: int| 0 <= j < i ==> !dots_at(l, j),
        decreases n - i,
    {
        if h[i] == '.' && h[i + 1] == '.' {
            assert(dots_at(l, i as int));
            return Some(HostnameFault::ConsecutiveDots);
        }
        i = i + 1;
    }
    assert(!has_double_dot(l));
    if !char_is_lower_alnum(h[0]) || !char_is_lower_alnum(h[n - 1]) {
        return Some(HostnameFault::InvalidCharacters);
    }
    let mut k: usize = 1;
    while k < n - 1
        invariant
            1 <= k <= n,
            0 < n <= h.len(),
            l == h@.take(n as int),
            l == label_of(h@),
            !has_double_dot(l),
            is_lower_alnum(l[0]),
            is_lower_alnum(l.last()),
            forall|j: int| 0 < j < k && j < n - 1 ==> is_label_char(#[trigger] l[j]),
        decreases n - k,
    {
        let c: char = h[k];
        if !(char_is_lower_alnum(c) || c == '-' || c == '.') {
            assert(!is_label_char(l[k as int]));
            return Some(HostnameFault::InvalidCharacters);
        }
        k = k + 1;
    }
    None
}

/// Checks a full hostname against the grammar: its label, the part before
/// `.localhost`, must not be empty, must not hold two dots in a row, must
/// start and end with a lower-case letter or a digit and hold only those,
/// hyphens and dots.
pub fn validate_hostname(hostname: &str) -> (r: Result<(), HostnameError>)
    ensures
        match r {
            Ok(_) => hostname_fault(hostname@) is None,
            Err(e) => hostname_fault(hostname@) == Some(e.fault) && e.label@ == label_of(
                hostname@,
            ),
        },
{
    let h = chars_of(hostname);
    let n = label_len(&h);
    match check_label(&h, n) {
        None => Ok(()),
        Some(fault) => Err(HostnameError { fault, label: string_of_range(&h, 0, n) }),
    }
}

/// Turns what the user typed into a full hostname. The input is trimmed,
/// a leading `http://` or `https://` and everything from the first `/` on
/// are dropped, the rest is put in lower case and `.localhost` is appended
/// unless it is there; the result is then checked against the grammar.
pub fn parse_hostname(input: &str) -> (r: Result<String, HostnameError>)
    ensures
        match r {
            Ok(h) => parse_hostname_spec(input@) == Ok::<Seq<char>, HostnameFault>(h@),
            Err(e) => parse_hostname_spec(input@) == Err::<Seq<char>, HostnameFault>(e.fault)
                && e.label@ == (if e.fault == HostnameFault::Empty {
                Seq::<char>::empty()
            } else {
                label_of(with_suffix(host_part(input@)))
            }),
        },
{
    let v = chars_of(input);
    let (a, b) = trim_bounds(&v);
    let https = chars_of("https://");
    let http = chars_of("http://");
    let suffix = chars_of(".localhost");
    proof {
        reveal_strlit("https://");
        reveal_strlit("http://");
        reveal_strlit(".localhost");
    }
    let ghost t = trim(v@);
    let start: usize = if range_starts_with(&v, a, b, &https) {
        a + 8
    } else if range_starts_with(&v, a, b, &http) {
        a + 7
    } else {
        a
    };
    assert(v@.subrange(start as int, b as int) =~= strip_scheme(t));
    let end: usize = find_char(&v, start, b, '/');
    assert(v@.subrange(start as int, end as int) =~= before_first(strip_scheme(t), '/'));
    let mut h: Vec<char> = Vec::new();
    let mut i: usize = start;
    while i < end
        invariant
            start <= i <= end <= v.len(),
            h@ == lower_seq(v@.subrange(start as int, i as int)),
        decreases end - i,
    {
        h.push(char_lower(v[i]));
        i = i + 1;
        assert(h@ =~= lower_seq(v@.subrange(start as int, i as int)));
    }
    assert(h@ == host_part(input@));
    assert(h@.subrange(0, h.len() as int) =~= h@);
    if h.len() == 0 {
        return Err(HostnameError { fault: HostnameFault::Empty, label: String::new() });
    }
    let has_suffix = range_ends_with(&h, 0, h.len(), &suffix);
    if has_suffix && h.len() == suffix.len() {
        assert(h@ =~= localhost_suffix());
        return Err(HostnameError { fault: HostnameFault::Empty, label: String::new() });
    }
    if !has_suffix {
        push_range(&mut h, &suffix, 0, suffix.len());
        assert(suffix@.subrange(0, suffix.len() as int) =~= suffix@);
    }
    assert(h@ == with_suffix(host_part(input@)));
    let n = label_len(&h);
    match check_label(&h, n) {
        None => Ok(string_of(&h)),
        Some(fault) => Err(HostnameError { fault, label: string_of_range(&h, 0, n) }),
    }
}

/// An accepted hostname is its label followed by `.localhost`, and holds
/// only lower-case letters, digits, hyphens and dots.
pub proof fn lemma_accepted_hostname_shape(h: Seq<char>)
    requires
        ends_with(h, localhost_suffix()),
        hostname_fault(h) is None,
    ensures
        h == label_of(h) + localhost_suffix(),
        label_of(h).len() > 0,
        forall|i: int| 0 <= i < h.len() ==> is_label_char(#[trigger] h[i]),
{
    reveal_strlit(".localhost");
    let l = label_of(h);
    let sfx = localhost_suffix();
    assert(h =~= l + sfx);
    assert forall|i: int| 0 <= i < h.len() implies is_label_char(#[trigger] h[i]) by {
        if i < l.len() {
            assert(h[i] == l[i]);
            if i == 0 {
            } else if i == l.len() - 1 {
            } else {
                assert(is_label_char(l[i]));
            }
        } else {
            assert(h[i] == sfx[i - l.len()]);
        }
    }
}

/// Parsing an accepted hostname again gives the same hostname: whatever
/// [`parse_hostname`] accepts, it maps to a fixed point of itself.
pub proof fn lemma_parse_hostname_idempotent(input: Seq<char>)
    requires
        parse_hostname_spec(input) is Ok,
    ensures
        parse_hostname_spec(parse_hostname_spec(input)->Ok_0) == parse_hostname_spec(input),
{
    reveal_strlit(".localhost");
    reveal_strlit("https://");
    reveal_strlit("http://");
    let h = with_suffix(host_part(input));
    let sfx = localhost_suffix();
    assert(parse_hostname_spec(input) == Ok::<Seq<char>, HostnameFault>(h));
    assert(ends_with(h, sfx)) by {
        let h0 = host_part(input);
        if !ends_with(h0, sfx) {
            assert((h0 + sfx).subrange((h0 + sfx).len() - sfx.len(), (h0 + sfx).len() as int)
                =~= sfx);
        }
    }
    lemma_accepted_hostname_shape(h);
    let l = label_of(h);
    assert(h.len() == l.len() + 10);
    // Trimming changes nothing: the ends are not whitespace.
    assert(is_label_char(h[0]));
    assert(is_label_char(h.last()));
    assert(!is_whitespace(h[0]));
    assert(!is_whitespace(h.last()));
    assert(trim_start(h) == h);
    assert(trim_end(h) == h);
    assert(trim(h) == h);
    // No scheme: a scheme holds a colon.
    if starts_with(h, "https://"@) {
        assert(h.subrange(0, 8)[5] == ':');
        assert(is_label_char(h[5]));
    }
    if starts_with(h, "http://"@) {
        assert(h.subrange(0, 7)[4] == ':');
        assert(is_label_char(h[4]));
    }
    assert(strip_scheme(h) == h);
    // No path: there is no slash.
    lemma_first_index(h, '/');
    if first_index(h, '/') < h.len() {
        assert(is_label_char(h[first_index(h, '/')]));
    }
    assert(before_first(h, '/') =~= h);
    // Already in lower case.
    assert forall|i: int| 0 <= i < h.len() implies lower_seq(h)[i] == h[i] by {
        assert(is_label_char(h[i]));
    }
    assert(lower_seq(h) =~= h);
    assert(host_part(h) == h);
    assert(h != sfx);
    assert(with_suffix(h) == h);
}

/// `nix::sys::signal::Signal`, the signals that a process can be sent.
#[verifier::external_type_specification]
#[verifier::external_body]
pub struct ExSignal(nix::sys::signal::Signal);

/// The number that the platform gives a signal.
pub uninterp spec fn signal_value(sig: nix::sys::signal::Signal) -> i32;

/// Casts a `nix::sys::signal::Signal` to the number that the platform
/// gives the signal: the enum's variants carry those numbers. The number is
/// named, not described.
#[verifier::external_body]
fn signal_number(sig: nix::sys::signal::Signal) -> (n: i32)
    ensures
        n == signal_value(sig),
{
    sig as i32
}

/// The exit code of a supervisor that was ended by the signal with the
/// number `signum`: 128 plus the number, and the largest code there is
/// where that is no code.
pub open spec fn exit_code_spec(signum: i32) -> i32 {
    if 128 + signum <= i32::MAX {
        (128 + signum) as i32
    } else {
        i32::MAX
    }
}

/// The exit code for the signal with the number `signum`.
pub fn exit_code_for_signal_number(signum: i32) -> (code: i32)
    ensures
        code == exit_code_spec(signum),
{
    if signum <= i32::MAX - 128 {
        128 + signum
    } else {
        i32::MAX
    }
}

/// The exit code of a supervisor that was ended by `sig`: 128 plus the
/// number that the platform gives the signal.
pub fn signal_exit_code(sig: nix::sys::signal::Signal) -> (code: i32)
    ensures
        code == exit_code_spec(signal_value(sig)),
{
    let n = signal_number(sig);
    exit_code_for_signal_number(n)
}

/// Whether only root can bind `port`.
pub fn is_privileged_port(port: u16) -> (b: bool)
    ensures
        b == (port < PRIVILEGED_PORT_THRESHOLD),
{
    port < PRIVILEGED_PORT_THRESHOLD
}

/// Whether a user with the identifier `uid` may start a proxy on `port`:
/// a privileged port takes root.
pub fn can_bind(port: u16, uid: u32) -> (b: bool)
    ensures
        b == (port >= PRIVILEGED_PORT_THRESHOLD || uid == 0),
{
    !is_privileged_port(port) || uid == 0
}

/// The state directory of a proxy on `proxy_port`: the configured one
/// where there is one; else `/tmp/portless` for a privileged port, and
/// `.portless` in the home directory (in `/tmp` where there is no home
/// directory) for any other.
pub open spec fn state_dir_spec(
    proxy_port: u16,
    configured: Option<Seq<char>>,
    home: Option<Seq<char>>,
) -> Seq<char> {
    match configured {
        Some(dir) => dir,
        None => if proxy_port < PRIVILEGED_PORT_THRESHOLD {
            "/tmp/portless"@
        } else {
            join_path(
                match home {
                    Some(h) => h,
                    None => "/tmp"@,
                },
                ".portless"@,
            )
        },
    }
}

/// The view of an optional string.
pub open spec fn opt_view(s: Option<&str>) -> Option<Seq<char>> {
    match s {
        Some(t) => Some(t@),
        None => None,
    }
}

/// Chooses the state directory of a proxy on `proxy_port`, given the
/// configured directory and the home directory, where there are any.
pub fn resolve_state_dir(proxy_port: u16, configured: Option<&str>, home: Option<&str>) -> (dir:
    String)
    ensures
        dir@ == state_dir_spec(proxy_port, opt_view(configured), opt_view(home)),
{
    match configured {
        Some(d) => d.to_owned(),
        None => {
            if proxy_port < PRIVILEGED_PORT_THRESHOLD {
                "/tmp/portless".to_owned()
            } else {
                match home {
                    Some(h) => path_join(h, ".portless"),
                    None => path_join("/tmp", ".portless"),
                }
            }
        },
    }
}

/// The proxy port to use when none is given: the configured one where it
/// is a port number, else the default.
pub fn get_default_port(configured: Option<&str>) -> (port: u16)
    ensures
        port == (match configured {
            Some(text) => match parse_unsigned(text@, u16::MAX as nat) {
                Some(n) => n as u16,
                None => DEFAULT_PROXY_PORT,
            },
            None => DEFAULT_PROXY_PORT,
        }),
{
    match configured {
        None => DEFAULT_PROXY_PORT,
        Some(text) => {
            let v = chars_of(text);
            assert(v@.subrange(0, v.len() as int) =~= v@);
            match parse_unsigned_range(&v, 0, v.len(), 65535) {
                Some(n) => n as u16,
                None => DEFAULT_PROXY_PORT,
            }
        },
    }
}

/// The port that the content of a port file names.
pub fn parse_port_text(content: &str) -> (port: Option<u16>)
    ensures
        match port {
            Some(p) => parse_unsigned(trim(content@), u16::MAX as nat) == Some(p as nat),
            None => parse_unsigned(trim(content@), u16::MAX as nat) is None,
        },
{
    let v = chars_of(content);
    let (a, b) = trim_bounds(&v);
    match parse_unsigned_range(&v, a, b, 65535) {
        Some(n) => Some(n as u16),
        None => None,
    }
}

/// The process identifier that the content of a PID file names.
pub fn parse_pid_text(content: &str) -> (pid: Option<i32>)
    ensures
        match pid {
            Some(p) => parse_signed(trim(content@), i32::MIN as int, i32::MAX as int) == Some(
                p as int,
            ),
            None => parse_signed(trim(content@), i32::MIN as int, i32::MAX as int) is None,
        },
{
    let v = chars_of(content);
    let (a, b) = trim_bounds(&v);
    parse_i32_range(&v, a, b)
}

/// The first line of trimmed `output`, trimmed.
pub open spec fn first_line(output: Seq<char>) -> Seq<char> {
    trim(before_first(trim(output), '\n'))
}

/// The process identifier on the first line of a listing of the processes
/// that listen on a port.
pub fn parse_listener_pid(output: &str) -> (pid: Option<u32>)
    ensures
        match pid {
            Some(p) => parse_unsigned(first_line(output@), u32::MAX as nat) == Some(p as nat),
            None => parse_unsigned(first_line(output@), u32::MAX as nat) is None,
        },
{
    let v = chars_of(output);
    let (a, b) = trim_bounds(&v);
    let end = find_char(&v, a, b, '\n');
    let mut line: Vec<char> = Vec::new();
    push_range(&mut line, &v, a, end);
    assert(line@ =~= before_first(trim(output@), '\n'));
    let (c, d) = trim_bounds(&line);
    parse_unsigned_range(&line, c, d, 4294967295u32)
}

/// A proxy that a state directory names: the port in its port file, and
/// whether a proxy answered there.
#[derive(Debug, Clone, Copy, PartialEq, Eq, Structural)]
pub struct ProxySighting {
    pub port: u16,
    pub answers: bool,
}

/// The state directory and port to use. A configured directory wins, with
/// the port that its port file names or else the default; then the user's
/// directory, then the system's, where a proxy answers on the port that
/// the directory names; else the defaults.
pub open spec fn discover_state_spec(
    configured: Option<Seq<char>>,
    configured_port: Option<u16>,
    home: Option<Seq<char>>,
    user: Option<ProxySighting>,
    system: Option<ProxySighting>,
    default_port: u16,
) -> (Seq<char>, u16) {
    if let Some(dir) = configured {
        (
            dir,
            match configured_port {
                Some(p) => p,
                None => default_port,
            },
        )
    } else if user matches Some(u) && u.answers {
        (state_dir_spec(PRIVILEGED_PORT_THRESHOLD, None, home), user->0.port)
    } else if system matches Some(sys) && sys.answers {
        ("/tmp/portless"@, system->0.port)
    } else {
        (state_dir_spec(default_port, None, home), default_port)
    }
}

/// Chooses the state directory and port from what was found: the
/// configured directory and the port in its port file, the home directory,
/// what the user's and the system's directory name, and the default port.
pub fn discover_state(
    configured: Option<&str>,
    configured_port: Option<u16>,
    home: Option<&str>,
    user: Option<ProxySighting>,
    system: Option<ProxySighting>,
    default_port: u16,
) -> (found: (String, u16))
    ensures
        (found.0@, found.1) == discover_state_spec(
            opt_view(configured),
            configured_port,
            opt_view(home),
            user,
            system,
            default_port,
        ),
{
    if let Some(dir) = configured {
        let port: u16 = match configured_port {
            Some(p) => p,
            None => default_port,
        };
        return (dir.to_owned(), port);
    }
    if let Some(u) = user {
        if u.answers {
            return (resolve_state_dir(PRIVILEGED_PORT_THRESHOLD, None, home), u.port);
        }
    }
    if let Some(sys) = system {
        if sys.answers {
            return ("/tmp/portless".to_owned(), sys.port);
        }
    }
    (resolve_state_dir(default_port, None, home), default_port)
}

/// The request that asks a port whether a proxy of this kind listens
/// there.
pub fn probe_request(port: u16) -> (request: String)
    ensures
        request@ == "HEAD / HTTP/1.0\r\nHost: 127.0.0.1:"@ + decimal(port as nat)
            + "\r\nConnection: close\r\n\r\n"@,
{
    let mut out: Vec<char> = Vec::new();
    push_str(&mut out, "HEAD / HTTP/1.0\r\nHost: 127.0.0.1:");
    push_decimal(&mut out, port as u32);
    push_str(&mut out, "\r\nConnection: close\r\n\r\n");
    string_of(&out)
}

/// The head of `response`: what stands before its first empty line.
pub open spec fn head_of(response: Seq<char>) -> Seq<char> {
    response.take(first_occurrence(response, "\r\n\r\n"@))
}

/// Whether the head of `response`, in any case, holds the header by which
/// a proxy of this kind marks what it sends.
pub fn is_portless_response(response: &str) -> (b: bool)
    ensures
        b == contains_seq(lower_seq(head_of(response@)), "x-portless: 1"@),
{
    let v = chars_of(response);
    let blank = chars_of("\r\n\r\n");
    assert(v@.subrange(0, v.len() as int) =~= v@);
    let end = find_seq(&v, 0, v.len(), &blank);
    let low = lower_range(&v, 0, end);
    assert(v@.subrange(0, end as int) =~= head_of(response@));
    let marker = chars_of("x-portless: 1");
    let at = find_seq(&low, 0, low.len(), &marker);
    proof {
        reveal_strlit("x-portless: 1");
        assert(low@.subrange(0, low.len() as int) =~= low@);
        lemma_first_occurrence(low@, marker@);
        if at < low.len() {
            assert(occurs_at(low@, marker@, at as int));
        } else {
            assert forall|j: int| !occurs_at(low@, marker@, j) by {
                if 0 <= j < low.len() {
                } else if occurs_at(low@, marker@, j) {
                    assert(j + marker@.len() <= low@.len());
                }
            }
        }
    }
    at < low.len()
}

/// Calls `rand::Rng::random_range` on the generator that `rand::rng`
/// hands out, with the range from `low` to `high`, both included. The
/// number lies in that range; which one it is, is left open.
#[verifier::external_body]
fn random_port(low: u16, high: u16) -> (port: u16)
    requires
        low <= high,
    ensures
        low <= port <= high,
{
    rand::Rng::random_range(&mut rand::rng(), low..=high)
}

/// No port of the application range is free.
#[derive(Debug, Clone, Copy, PartialEq, Eq, Structural)]
pub struct NoFreePort;

impl NoFreePort {
    /// The text shown to the user.
    pub fn message(&self) -> (m: String)
        ensures
            m@ == "No free port found in range "@ + decimal(MIN_APP_PORT as nat) + seq!['-']
                + decimal(MAX_APP_PORT as nat),
    {
        let mut out: Vec<char> = Vec::new();
        push_str(&mut out, "No free port found in range ");
        push_decimal(&mut out, MIN_APP_PORT as u32);
        out.push('-');
        push_decimal(&mut out, MAX_APP_PORT as u32);
        string_of(&out)
    }
}

/// Whether `port` is one that applications are given.
pub open spec fn is_app_port(port: u16) -> bool {
    MIN_APP_PORT <= port <= MAX_APP_PORT
}

/// Looks for a free port for an application: some random ports of the
/// range are asked first, then every port of the range in order.
/// `is_free` says whether a port can be bound. The port that comes back
/// was found free; where none comes back, every port of the range was
/// found taken.
pub fn find_free_port<F: Fn(u16) -> bool>(is_free: F) -> (r: Result<u16, NoFreePort>)
    requires
        forall|p: u16| is_app_port(p) ==> #[trigger] call_requires(is_free, (p,)),
    ensures
        match r {
            Ok(port) => is_app_port(port) && call_ensures(is_free, (port,), true),
            Err(_) => forall|p: u16| is_app_port(p) ==> #[trigger] call_ensures(is_free, (p,), false),
        },
{
    let mut tries: usize = 0;
    while tries < RANDOM_PORT_ATTEMPTS
        invariant
            forall|p: u16| is_app_port(p) ==> #[trigger] call_requires(is_free, (p,)),
        decreases RANDOM_PORT_ATTEMPTS - tries,
    {
        let port: u16 = random_port(MIN_APP_PORT, MAX_APP_PORT);
        if is_free(port) {
            return Ok(port);
        }
        tries = tries + 1;
    }
    let mut port: u16 = MIN_APP_PORT;
    while port <= MAX_APP_PORT
        invariant
            MIN_APP_PORT <= port <= MAX_APP_PORT + 1,
            forall|p: u16| is_app_port(p) ==> #[trigger] call_requires(is_free, (p,)),
            forall|p: u16|
                MIN_APP_PORT <= p < port ==> #[trigger] call_ensures(is_free, (p,), false),
        decreases MAX_APP_PORT + 1 - port,
    {
        if is_free(port) {
            return Ok(port);
        }
        port = port + 1;
    }
    Err(NoFreePort)
}

/// Whether the value of the switch that turns the proxy off says so: it
/// is `0`, or `skip` in any case.
pub fn is_integration_disabled(value: &str) -> (b: bool)
    ensures
        b == (value@ == "0"@ || lower_seq(value@) == "skip"@),
{
    str_eq(value, "0") || lower_eq(value, "skip")
}

/// What the user wants done about a proxy that does not run.
#[derive(Debug, Clone, Copy, PartialEq, Eq, Structural)]
pub enum StartChoice {
    /// Start the proxy.
    Start,
    /// Leave.
    Cancel,
    /// Run the command without the proxy.
    Skip,
}

/// What `answer`, trimmed and in lower case, asks for: `n` and `no`
/// cancel, `s` and `skip` run the command without the proxy, anything
/// else starts the proxy.
pub open spec fn start_choice_spec(answer: Seq<char>) -> StartChoice {
    let a = lower_seq(trim(answer));
    if a == "n"@ || a == "no"@ {
        StartChoice::Cancel
    } else if a == "s"@ || a == "skip"@ {
        StartChoice::Skip
    } else {
        StartChoice::Start
    }
}

/// Reads the user's answer to the question whether to start the proxy.
pub fn interpret_answer(answer: &str) -> (choice: StartChoice)
    ensures
        choice == start_choice_spec(answer@),
{
    let v = chars_of(answer);
    let (a, b) = trim_bounds(&v);
    let low = string_of(&lower_range(&v, a, b));
    if str_eq(low.as_str(), "n") || str_eq(low.as_str(), "no") {
        StartChoice::Cancel
    } else if str_eq(low.as_str(), "s") || str_eq(low.as_str(), "skip") {
        StartChoice::Skip
    } else {
        StartChoice::Start
    }
}

} // verus!
