//! The header fields of a request, and what the proxy changes in them on
//! the way to a backend.

use vstd::prelude::*;
use crate::text::{
    before_first, chars_of, decimal, find_char, first_index, push_decimal, push_str, str_eq,
    string_of, string_of_range,
};

verus! {

/// One header field of a request. The name is in lower case. The value is
/// `None` where it is not text, that is, holds bytes other than visible
/// ASCII, space and tab.
#[derive(Debug, Clone, PartialEq, Eq)]
pub struct HeaderField {
    pub name: String,
    pub value: Option<String>,
}

/// The mathematical value of a [`HeaderField`].
pub struct HeaderFieldView {
    pub name: Seq<char>,
    pub value: Option<Seq<char>>,
}

impl View for HeaderField {
    type V = HeaderFieldView;

    open spec fn view(&self) -> HeaderFieldView {
        HeaderFieldView {
            name: self.name@,
            value: match self.value {
                Some(v) => Some(v@),
                None => None,
            },
        }
    }
}

/// The values of the fields in `v`, in order.
pub open spec fn field_views(v: Seq<HeaderField>) -> Seq<HeaderFieldView> {
    Seq::new(v.len(), |i: int| v[i]@)
}

/// The values of the pairs in `v`, in order.
pub open spec fn pair_views(v: Seq<(String, String)>) -> Seq<(Seq<char>, Seq<char>)> {
    Seq::new(v.len(), |i: int| (v[i].0@, v[i].1@))
}

/// The position of the first field named `name`, or the number of fields
/// where there is none.
pub open spec fn position_of(fields: Seq<HeaderFieldView>, name: Seq<char>) -> int
    decreases fields.len(),
{
    if fields.len() == 0 || fields[0].name == name {
        0
    } else {
        1 + position_of(fields.drop_first(), name)
    }
}

/// Whether a field named `name` is among `fields`.
pub open spec fn has_header(fields: Seq<HeaderFieldView>, name: Seq<char>) -> bool {
    position_of(fields, name) < fields.len()
}

/// The text of the first field named `name`: `None` where there is no such
/// field or its value is not text.
pub open spec fn header_text(fields: Seq<HeaderFieldView>, name: Seq<char>) -> Option<Seq<char>> {
    if has_header(fields, name) {
        fields[position_of(fields, name)].value
    } else {
        None
    }
}

/// [`position_of`] lies within `fields`, no field before it has the name,
/// and the field at it has the name unless it is the number of fields.
pub proof fn lemma_position_of(fields: Seq<HeaderFieldView>, name: Seq<char>)
    ensures
        0 <= position_of(fields, name) <= fields.len(),
        forall|j: int| 0 <= j < position_of(fields, name) ==> (#[trigger] fields[j]).name != name,
        position_of(fields, name) < fields.len() ==> fields[position_of(fields, name)].name
            == name,
    decreases fields.len(),
{
    if fields.len() == 0 || fields[0].name == name {
    } else {
        let t = fields.drop_first();
        lemma_position_of(t, name);
        assert forall|j: int| 0 <= j < position_of(fields, name) implies (#[trigger] fields[j]).name
            != name by {
            if j > 0 {
                assert(fields[j] == t[j - 1]);
            }
        }
        if position_of(fields, name) < fields.len() {
            assert(fields[position_of(fields, name)] == t[position_of(t, name)]);
        }
    }
}

/// A position whose field has the name, with no such field before it, is
/// the [`position_of`] the name; so is the number of fields where no
/// field has the name.
pub proof fn lemma_position_of_is(fields: Seq<HeaderFieldView>, name: Seq<char>, i: int)
    requires
        0 <= i <= fields.len(),
        forall|j: int| 0 <= j < i ==> (#[trigger] fields[j]).name != name,
        i < fields.len() ==> fields[i].name == name,
    ensures
        position_of(fields, name) == i,
{
    lemma_position_of(fields, name);
    let k = position_of(fields, name);
    if k < i {
        assert(fields[k].name == name);
    } else if k > i {
        assert(fields[i].name == name);
    }
}

/// Where no field of `a` is named `name`, looking the name up in `a`
/// followed by `b` is looking it up in `b`.
pub proof fn lemma_lookup_skips(a: Seq<HeaderFieldView>, b: Seq<HeaderFieldView>, name: Seq<char>)
    requires
        forall|j: int| 0 <= j < a.len() ==> (#[trigger] a[j]).name != name,
    ensures
        position_of(a + b, name) == a.len() + position_of(b, name),
        has_header(a + b, name) == has_header(b, name),
        header_text(a + b, name) == header_text(b, name),
{
    lemma_position_of(b, name);
    let at = position_of(b, name);
    assert forall|j: int| 0 <= j < a.len() + at implies (#[trigger] (a + b)[j]).name != name by {
        if j >= a.len() {
            assert((a + b)[j] == b[j - a.len()]);
        } else {
            assert((a + b)[j] == a[j]);
        }
    }
    if at < b.len() {
        assert((a + b)[a.len() + at] == b[at]);
    }
    lemma_position_of_is(a + b, name, a.len() + at);
}

/// Where a field of `a` is named `name`, looking the name up in `a`
/// followed by `b` is looking it up in `a`.
pub proof fn lemma_lookup_stops(a: Seq<HeaderFieldView>, b: Seq<HeaderFieldView>, name: Seq<char>)
    requires
        has_header(a, name),
    ensures
        position_of(a + b, name) == position_of(a, name),
        has_header(a + b, name),
        header_text(a + b, name) == header_text(a, name),
{
    lemma_position_of(a, name);
    let at = position_of(a, name);
    assert forall|j: int| 0 <= j < at implies (#[trigger] (a + b)[j]).name != name by {
        assert((a + b)[j] == a[j]);
    }
    assert((a + b)[at] == a[at]);
    lemma_position_of_is(a + b, name, at);
}

/// The position of the first field of `fields` named `name`; the number of
/// fields where there is none.
pub fn find_header(fields: &Vec<HeaderField>, name: &str) -> (i: usize)
    ensures
        i == position_of(field_views(fields@), name@),
        i <= fields.len(),
{
    let mut i: usize = 0;
    while i < fields.len()
        invariant
            i <= fields.len(),
            forall|j: int| 0 <= j < i ==> (#[trigger] field_views(fields@)[j]).name != name@,
        decreases fields.len() - i,
    {
        if str_eq(fields[i].name.as_str(), name) {
            proof {
                assert(field_views(fields@)[i as int].name == name@);
                lemma_position_of_is(field_views(fields@), name@, i as int);
            }
            return i;
        }
        assert(field_views(fields@)[i as int].name != name@);
        i = i + 1;
    }
    proof {
        lemma_position_of_is(field_views(fields@), name@, i as int);
    }
    i
}

/// Whether a field named `name` is among `fields`.
pub fn contains_header(fields: &Vec<HeaderField>, name: &str) -> (b: bool)
    ensures
        b == has_header(field_views(fields@), name@),
{
    find_header(fields, name) < fields.len()
}

/// The text of the first field of `fields` named `name`.
pub fn get_header<'a>(fields: &'a Vec<HeaderField>, name: &str) -> (text: Option<&'a str>)
    ensures
        match text {
            Some(t) => header_text(field_views(fields@), name@) == Some(t@),
            None => header_text(field_views(fields@), name@) is None,
        },
{
    let i = find_header(fields, name);
    if i < fields.len() {
        assert(field_views(fields@)[i as int] == fields@[i as int]@);
        match &fields[i].value {
            Some(v) => Some(v.as_str()),
            None => None,
        }
    } else {
        None
    }
}

/// The `Host` value that a backend on `port` is sent.
pub open spec fn backend_host(port: u16) -> Seq<char> {
    "localhost:"@ + decimal(port as nat)
}

/// The `X-Forwarded-For` value: the client's address, behind what was
/// there already.
pub open spec fn chained_for(existing: Option<Seq<char>>, client_ip: Seq<char>) -> Seq<char> {
    match existing {
        Some(e) => e + ", "@ + client_ip,
        None => client_ip,
    }
}

/// The port that a `Host` value names: what stands between its first colon
/// and the next, and `80` where it has no colon.
pub open spec fn forwarded_port(host: Seq<char>) -> Seq<char> {
    let i = first_index(host, ':');
    if i < host.len() {
        before_first(host.skip(i + 1), ':')
    } else {
        "80"@
    }
}

/// The text of an optional value, and `fallback` where there is none.
pub open spec fn text_or(value: Option<Seq<char>>, fallback: Seq<char>) -> Seq<char> {
    match value {
        Some(v) => v,
        None => fallback,
    }
}

/// The fields that the proxy sets on a request before it forwards it to
/// the backend on `port`, each in place of what the request holds under
/// that name: `host` names the backend, `x-forwarded-for` is extended by
/// the client's address, and `x-forwarded-proto`, `x-forwarded-host` and
/// `x-forwarded-port` are set where the request has none.
pub open spec fn forward_updates_spec(
    fields: Seq<HeaderFieldView>,
    port: u16,
    client_ip: Seq<char>,
) -> Seq<(Seq<char>, Seq<char>)> {
    let host = text_or(header_text(fields, "host"@), Seq::empty());
    seq![
        ("host"@, backend_host(port)),
        ("x-forwarded-for"@, chained_for(header_text(fields, "x-forwarded-for"@), client_ip)),
    ] + (if has_header(fields, "x-forwarded-proto"@) {
        Seq::empty()
    } else {
        seq![("x-forwarded-proto"@, "http"@)]
    }) + (if has_header(fields, "x-forwarded-host"@) {
        Seq::empty()
    } else {
        seq![("x-forwarded-host"@, host)]
    }) + (if has_header(fields, "x-forwarded-port"@) {
        Seq::empty()
    } else {
        seq![("x-forwarded-port"@, forwarded_port(host))]
    })
}

/// The `Host` value for a backend on `port`.
pub fn backend_host_value(port: u16) -> (value: String)
    ensures
        value@ == backend_host(port),
{
    let mut out: Vec<char> = Vec::new();
    push_str(&mut out, "localhost:");
    push_decimal(&mut out, port as u32);
    string_of(&out)
}

/// The `X-Forwarded-For` value for a request from `client_ip` that came
/// with the value `existing`.
pub fn chained_for_value(existing: Option<&str>, client_ip: &str) -> (value: String)
    ensures
        value@ == chained_for(
            match existing {
                Some(e) => Some(e@),
                None => None,
            },
            client_ip@,
        ),
{
    let mut out: Vec<char> = Vec::new();
    match existing {
        Some(e) => {
            push_str(&mut out, e);
            push_str(&mut out, ", ");
            push_str(&mut out, client_ip);
        },
        None => {
            push_str(&mut out, client_ip);
        },
    }
    string_of(&out)
}

/// The port that the `Host` value `host` names.
pub fn forwarded_port_value(host: &str) -> (value: String)
    ensures
        value@ == forwarded_port(host@),
{
    let v = chars_of(host);
    let n: usize = v.len();
    assert(v@.subrange(0, n as int) =~= v@);
    let i = find_char(&v, 0, n, ':');
    if i < n {
        assert(v@.skip(i + 1) =~= v@.subrange(i + 1, n as int));
        let j = find_char(&v, i + 1, n, ':');
        assert(v@.subrange(i + 1, j as int) =~= v@.subrange(i + 1, n as int).take(j - (i + 1)));
        string_of_range(&v, i + 1, j)
    } else {
        "80".to_owned()
    }
}

/// The fields to set on a request with the fields `fields`, from
/// `client_ip`, before it is forwarded to the backend on `port`.
pub fn forward_updates(fields: &Vec<HeaderField>, port: u16, client_ip: &str) -> (updates: Vec<
    (String, String),
>)
    ensures
        pair_views(updates@) == forward_updates_spec(field_views(fields@), port, client_ip@),
{
    let host: String = match get_header(fields, "host") {
        Some(h) => h.to_owned(),
        None => String::new(),
    };
    let mut updates: Vec<(String, String)> = Vec::new();
    updates.push(("host".to_owned(), backend_host_value(port)));
    updates.push(
        ("x-forwarded-for".to_owned(), chained_for_value(get_header(fields, "x-forwarded-for"), client_ip)),
    );
    if !contains_header(fields, "x-forwarded-proto") {
        updates.push(("x-forwarded-proto".to_owned(), "http".to_owned()));
    }
    if !contains_header(fields, "x-forwarded-host") {
        updates.push(("x-forwarded-host".to_owned(), host.clone()));
    }
    if !contains_header(fields, "x-forwarded-port") {
        updates.push(("x-forwarded-port".to_owned(), forwarded_port_value(host.as_str())));
    }
    assert(pair_views(updates@) =~= forward_updates_spec(field_views(fields@), port, client_ip@));
    updates
}

/// One header line of a request: name, colon, space, value, line end.
pub open spec fn header_line(name: Seq<char>, value: Seq<char>) -> Seq<char> {
    name + ": "@ + value + "\r\n"@
}

/// The lines of the fields of `fields` that are passed on as they are:
/// every field but `host` whose value is text, in order.
pub open spec fn passed_lines(fields: Seq<HeaderFieldView>) -> Seq<char>
    decreases fields.len(),
{
    if fields.len() == 0 {
        Seq::empty()
    } else if fields.last().name != "host"@ && fields.last().value is Some {
        passed_lines(fields.drop_last()) + header_line(
            fields.last().name,
            fields.last().value->0,
        )
    } else {
        passed_lines(fields.drop_last())
    }
}

/// The request that opens a WebSocket tunnel to the backend on `port`:
/// the request line, `host` naming the backend, the client's other
/// fields, `x-forwarded-for` extended by the client's address, then
/// `x-forwarded-host`, `x-forwarded-proto` and `x-forwarded-port` where
/// the client sent none, and an empty line.
pub open spec fn websocket_request_spec(
    method: Seq<char>,
    path: Seq<char>,
    fields: Seq<HeaderFieldView>,
    port: u16,
    client_ip: Seq<char>,
) -> Seq<char> {
    let host = text_or(header_text(fields, "host"@), "localhost"@);
    method + " "@ + path + " HTTP/1.1\r\n"@ + header_line("host"@, backend_host(port))
        + passed_lines(fields) + header_line(
        "x-forwarded-for"@,
        chained_for(header_text(fields, "x-forwarded-for"@), client_ip),
    ) + (if has_header(fields, "x-forwarded-host"@) {
        Seq::empty()
    } else {
        header_line("x-forwarded-host"@, host)
    }) + (if has_header(fields, "x-forwarded-proto"@) {
        Seq::empty()
    } else {
        header_line("x-forwarded-proto"@, "http"@)
    }) + (if has_header(fields, "x-forwarded-port"@) {
        Seq::empty()
    } else {
        header_line("x-forwarded-port"@, forwarded_port(host))
    }) + "\r\n"@
}

/// Appends the header line of `name` and `value` to `out`.
fn push_header_line(out: &mut Vec<char>, name: &str, value: &str)
    ensures
        final(out)@ == old(out)@ + header_line(name@, value@),
{
    push_str(out, name);
    push_str(out, ": ");
    push_str(out, value);
    push_str(out, "\r\n");
    assert(final(out)@ =~= old(out)@ + header_line(name@, value@));
}

/// Builds the request that opens a WebSocket tunnel to the backend on
/// `port`, for a client at `client_ip` that asked for `path` with `method`
/// and the fields `fields`.
pub fn build_websocket_request(
    method: &str,
    path: &str,
    fields: &Vec<HeaderField>,
    port: u16,
    client_ip: &str,
) -> (request: String)
    ensures
        request@ == websocket_request_spec(
            method@,
            path@,
            field_views(fields@),
            port,
            client_ip@,
        ),
{
    let ghost all = field_views(fields@);
    let host: String = match get_header(fields, "host") {
        Some(h) => h.to_owned(),
        None => "localhost".to_owned(),
    };
    let mut out: Vec<char> = Vec::new();
    push_str(&mut out, method);
    push_str(&mut out, " ");
    push_str(&mut out, path);
    push_str(&mut out, " HTTP/1.1\r\n");
    push_header_line(&mut out, "host", backend_host_value(port).as_str());
    let ghost head = out@;
    assert(head =~= method@ + " "@ + path@ + " HTTP/1.1\r\n"@ + header_line(
        "host"@,
        backend_host(port),
    ));
    let mut i: usize = 0;
    assert(all.take(0) =~= Seq::<HeaderFieldView>::empty());
    assert(out@ =~= head + passed_lines(all.take(0)));
    while i < fields.len()
        invariant
            i <= fields.len(),
            all == field_views(fields@),
            out@ == head + passed_lines(all.take(i as int)),
        decreases fields.len() - i,
    {
        let ghost before = out@;
        assert(all.take(i + 1).drop_last() =~= all.take(i as int));
        assert(all.take(i + 1).last() == fields@[i as int]@);
        if !str_eq(fields[i].name.as_str(), "host") {
            match &fields[i].value {
                Some(v) => {
                    push_header_line(&mut out, fields[i].name.as_str(), v.as_str());
                    assert(out@ =~= head + passed_lines(all.take(i + 1)));
                },
                None => {},
            }
        }
        i = i + 1;
    }
    assert(all.take(fields.len() as int) =~= all);
    let xff = chained_for_value(get_header(fields, "x-forwarded-for"), client_ip);
    push_header_line(&mut out, "x-forwarded-for", xff.as_str());
    if !contains_header(fields, "x-forwarded-host") {
        push_header_line(&mut out, "x-forwarded-host", host.as_str());
    }
    if !contains_header(fields, "x-forwarded-proto") {
        push_header_line(&mut out, "x-forwarded-proto", "http");
    }
    if !contains_header(fields, "x-forwarded-port") {
        push_header_line(&mut out, "x-forwarded-port", forwarded_port_value(host.as_str()).as_str());
    }
    push_str(&mut out, "\r\n");
    assert(out@ =~= websocket_request_spec(method@, path@, all, port, client_ip@));
    string_of(&out)
}

} // verus!
