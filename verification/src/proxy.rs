//! What the proxy decides for a request, and the responses that it writes
//! itself.

use vstd::prelude::*;
use crate::header_map::{map_fields, read_fields};
use crate::headers::{
    field_views, get_header, header_text, HeaderField, HeaderFieldView, pair_views,
};
use crate::routes::route_views;
use crate::text::{
    before_first, chars_of, contains_seq, decimal, find_char, find_seq, lemma_first_index_is, lemma_first_occurrence,
    lower_eq, lower_range, lower_seq, occurs_at, push_decimal, push_str, remove_all, string_of,
    without_occurrences,
};
use crate::types::{Route, RouteView};
use crate::utils::{escape_html, escape_html_spec, format_url, format_url_spec};

verus! {

/// A response that the proxy writes itself.
#[derive(Debug, Clone, PartialEq, Eq)]
pub struct ProxyResponse {
    pub status: u16,
    pub headers: Vec<(String, String)>,
    pub body: String,
}

/// The mathematical value of a [`ProxyResponse`].
pub struct ProxyResponseView {
    pub status: u16,
    pub headers: Seq<(Seq<char>, Seq<char>)>,
    pub body: Seq<char>,
}

impl View for ProxyResponse {
    type V = ProxyResponseView;

    open spec fn view(&self) -> ProxyResponseView {
        ProxyResponseView {
            status: self.status,
            headers: pair_views(self.headers@),
            body: self.body@,
        }
    }
}

/// The header by which the proxy marks every response that passes it.
pub open spec fn marker() -> (Seq<char>, Seq<char>) {
    ("x-portless"@, "1"@)
}

/// Whether `headers` holds the proxy's marker.
pub open spec fn carries_marker(headers: Seq<(Seq<char>, Seq<char>)>) -> bool {
    exists|i: int| 0 <= i < headers.len() && headers[i] == marker()
}

/// The proxy's marker, to be set on a response that a backend sent.
pub fn marker_header() -> (h: (String, String))
    ensures
        (h.0@, h.1@) == marker(),
{
    ("x-portless".to_owned(), "1".to_owned())
}

/// A plain-text response with `status` and `body`.
pub open spec fn plain_response(status: u16, body: Seq<char>) -> ProxyResponseView {
    ProxyResponseView {
        status,
        headers: seq![("content-type"@, "text/plain"@), marker()],
        body,
    }
}

/// The response to a request that cannot be served as it is.
pub fn bad_request_response(msg: &str) -> (r: ProxyResponse)
    ensures
        r@ == plain_response(400, msg@),
        carries_marker(r@.headers),
{
    let mut headers: Vec<(String, String)> = Vec::new();
    headers.push(("content-type".to_owned(), "text/plain".to_owned()));
    headers.push(marker_header());
    let r = ProxyResponse { status: 400, headers, body: msg.to_owned() };
    assert(r@.headers =~= plain_response(400, msg@).headers);
    assert(r@.headers[1] == marker());
    r
}

/// The response to a request whose backend cannot be reached or does not
/// answer as it should.
pub fn bad_gateway_response() -> (r: ProxyResponse)
    ensures
        r@ == plain_response(502, "Bad Gateway: the target app may not be running."@),
        carries_marker(r@.headers),
{
    let mut headers: Vec<(String, String)> = Vec::new();
    headers.push(("content-type".to_owned(), "text/plain".to_owned()));
    headers.push(marker_header());
    let r = ProxyResponse {
        status: 502,
        headers,
        body: "Bad Gateway: the target app may not be running.".to_owned(),
    };
    assert(r@.headers =~= plain_response(
        502,
        "Bad Gateway: the target app may not be running."@,
    ).headers);
    assert(r@.headers[1] == marker());
    r
}

/// The response that hands a WebSocket client what the backend answered:
/// the proxy's marker, then every header of the backend, in order.
pub fn switching_protocols_response(backend_headers: &Vec<(String, String)>) -> (r: ProxyResponse)
    ensures
        r@.status == 101,
        r@.headers == seq![marker()] + pair_views(backend_headers@),
        r@.body == Seq::<char>::empty(),
        carries_marker(r@.headers),
{
    let mut headers: Vec<(String, String)> = Vec::new();
    headers.push(marker_header());
    let mut i: usize = 0;
    assert(pair_views(headers@) =~= seq![marker()] + pair_views(backend_headers@).take(0));
    while i < backend_headers.len()
        invariant
            i <= backend_headers.len(),
            pair_views(headers@) == seq![marker()] + pair_views(backend_headers@).take(i as int),
        decreases backend_headers.len() - i,
    {
        let name: String = backend_headers[i].0.clone();
        let value: String = backend_headers[i].1.clone();
        let ghost before = pair_views(headers@);
        let ghost pair = (name@, value@);
        headers.push((name, value));
        assert(pair_views(headers@) =~= before.push(pair));
        assert(pair_views(backend_headers@).take(i + 1) =~= pair_views(backend_headers@).take(
            i as int,
        ).push(pair));
        i = i + 1;
    }
    assert(pair_views(backend_headers@).take(backend_headers.len() as int) =~= pair_views(
        backend_headers@,
    ));
    let r = ProxyResponse { status: 101, headers, body: String::new() };
    assert(r@.headers[0] == marker());
    r
}

/// What the client of a WebSocket is answered once the backend has
/// answered the opening request with `status` and `backend_headers`: the
/// backend's answer where it switches protocols, and a bad gateway where
/// it does not.
pub fn response_to_upgrade(status: u16, backend_headers: &Vec<(String, String)>) -> (r:
    ProxyResponse)
    ensures
        status == 101 ==> r@.status == 101 && r@.headers == seq![marker()] + pair_views(
            backend_headers@,
        ) && r@.body == Seq::<char>::empty(),
        status != 101 ==> r@ == plain_response(
            502,
            "Bad Gateway: the target app may not be running."@,
        ),
        carries_marker(r@.headers),
{
    if status == 101 {
        switching_protocols_response(backend_headers)
    } else {
        bad_gateway_response()
    }
}

/// The list item of one route on the page of a proxy on `proxy_port`.
pub open spec fn route_item(route: RouteView, proxy_port: u16) -> Seq<char> {
    "<li><a href=\""@ + escape_html_spec(format_url_spec(route.hostname, proxy_port)) + "\">"@
        + escape_html_spec(route.hostname) + "</a> - localhost:"@ + decimal(route.port as nat)
        + "</li>"@
}

/// The list items of `routes`, in order.
pub open spec fn route_items(routes: Seq<RouteView>, proxy_port: u16) -> Seq<char>
    decreases routes.len(),
{
    if routes.len() == 0 {
        Seq::empty()
    } else {
        route_items(routes.drop_last(), proxy_port) + route_item(routes.last(), proxy_port)
    }
}

/// The part of the page that lists the routes.
pub open spec fn routes_html(routes: Seq<RouteView>, proxy_port: u16) -> Seq<char> {
    if routes.len() == 0 {
        "<p><em>No apps running.</em></p>"@
    } else {
        "<ul>"@ + route_items(routes, proxy_port) + "</ul>"@
    }
}

/// The page shown for a hostname that no route is registered under.
pub open spec fn not_found_page(routes: Seq<RouteView>, hostname: Seq<char>, proxy_port: u16) -> Seq<
    char,
> {
    "<html>\n  <head><title>portless - Not Found</title></head>\n  <body style=\"font-family: system-ui; padding: 40px; max-width: 600px; margin: 0 auto;\">\n    <h1>Not Found</h1>\n    <p>No app registered for <strong>"@
        + escape_html_spec(hostname) + "</strong></p>\n    <h2>Active apps:</h2>\n    "@
        + routes_html(routes, proxy_port) + "\n    <p>Start an app with: <code>portless "@
        + escape_html_spec(remove_all(hostname, ".localhost"@))
        + " your-command</code></p>\n  </body>\n</html>"@
}

/// The response for a hostname that no route is registered under.
pub open spec fn not_found_spec(routes: Seq<RouteView>, hostname: Seq<char>, proxy_port: u16) -> ProxyResponseView {
    ProxyResponseView {
        status: 404,
        headers: seq![("content-type"@, "text/html; charset=utf-8"@), marker()],
        body: not_found_page(routes, hostname, proxy_port),
    }
}

/// Appends the list item of `route` to `out`.
fn push_route_item(out: &mut Vec<char>, route: &Route, proxy_port: u16)
    ensures
        final(out)@ == old(out)@ + route_item(route@, proxy_port),
{
    let url = format_url(route.hostname.as_str(), proxy_port);
    push_str(out, "<li><a href=\"");
    push_str(out, escape_html(url.as_str()).as_str());
    push_str(out, "\">");
    push_str(out, escape_html(route.hostname.as_str()).as_str());
    push_str(out, "</a> - localhost:");
    push_decimal(out, route.port as u32);
    push_str(out, "</li>");
    assert(final(out)@ =~= old(out)@ + route_item(route@, proxy_port));
}

/// Appends the part of the page that lists `routes` to `out`.
fn push_routes_html(out: &mut Vec<char>, routes: &[Route], proxy_port: u16)
    ensures
        final(out)@ == old(out)@ + routes_html(route_views(routes@), proxy_port),
{
    let ghost all = route_views(routes@);
    if routes.len() == 0 {
        push_str(out, "<p><em>No apps running.</em></p>");
        return ;
    }
    push_str(out, "<ul>");
    let ghost head = out@;
    let mut i: usize = 0;
    assert(all.take(0) =~= Seq::<RouteView>::empty());
    assert(out@ =~= head + route_items(all.take(0), proxy_port));
    while i < routes.len()
        invariant
            i <= routes.len(),
            all == route_views(routes@),
            out@ == head + route_items(all.take(i as int), proxy_port),
        decreases routes.len() - i,
    {
        assert(all.take(i + 1).drop_last() =~= all.take(i as int));
        assert(all.take(i + 1).last() == routes@[i as int]@);
        push_route_item(out, &routes[i], proxy_port);
        assert(out@ =~= head + route_items(all.take(i + 1), proxy_port));
        i = i + 1;
    }
    assert(all.take(routes.len() as int) =~= all);
    push_str(out, "</ul>");
    assert(final(out)@ =~= old(out)@ + routes_html(all, proxy_port));
}

/// Builds the response for `hostname`, under which no route is
/// registered: a page that names the hostname and lists `routes`, as a
/// proxy on `proxy_port` serves them.
pub fn not_found_response(routes: &[Route], hostname: &str, proxy_port: u16) -> (r: ProxyResponse)
    ensures
        r@ == not_found_spec(route_views(routes@), hostname@, proxy_port),
        carries_marker(r@.headers),
{
    let mut out: Vec<char> = Vec::new();
    push_str(
        &mut out,
        "<html>\n  <head><title>portless - Not Found</title></head>\n  <body style=\"font-family: system-ui; padding: 40px; max-width: 600px; margin: 0 auto;\">\n    <h1>Not Found</h1>\n    <p>No app registered for <strong>",
    );
    push_str(&mut out, escape_html(hostname).as_str());
    push_str(&mut out, "</strong></p>\n    <h2>Active apps:</h2>\n    ");
    push_routes_html(&mut out, routes, proxy_port);
    push_str(&mut out, "\n    <p>Start an app with: <code>portless ");
    let hint = string_of(&without_occurrences(hostname, ".localhost"));
    push_str(&mut out, escape_html(hint.as_str()).as_str());
    push_str(&mut out, " your-command</code></p>\n  </body>\n</html>");
    assert(out@ =~= not_found_page(route_views(routes@), hostname@, proxy_port));
    let mut headers: Vec<(String, String)> = Vec::new();
    headers.push(("content-type".to_owned(), "text/html; charset=utf-8".to_owned()));
    headers.push(marker_header());
    let r = ProxyResponse { status: 404, headers, body: string_of(&out) };
    assert(r@.headers =~= not_found_spec(route_views(routes@), hostname@, proxy_port).headers);
    assert(r@.headers[1] == marker());
    r
}

/// The hostname that a `Host` value asks for: what stands before its first
/// colon, in lower case; none where that is empty or there is no value.
pub open spec fn requested_host(host: Option<Seq<char>>) -> Option<Seq<char>> {
    match host {
        Some(h) => if before_first(h, ':').len() > 0 {
            Some(lower_seq(before_first(h, ':')))
        } else {
            None
        },
        None => None,
    }
}

/// A port behind the hostname plays no part in what a `Host` value asks
/// for: a value made of a hostname without a colon, a colon and anything
/// else asks for the same as the hostname alone.
pub proof fn lemma_port_is_ignored(hostname: Seq<char>, port: Seq<char>)
    requires
        forall|i: int| 0 <= i < hostname.len() ==> hostname[i] != ':',
    ensures
        requested_host(Some(hostname + seq![':'] + port)) == requested_host(Some(hostname)),
{
    let with_port = hostname + seq![':'] + port;
    lemma_first_index_is(with_port, ':', hostname.len() as int);
    lemma_first_index_is(hostname, ':', hostname.len() as int);
    assert(with_port.take(hostname.len() as int) =~= hostname);
    assert(hostname.take(hostname.len() as int) =~= hostname);
}

/// The hostname that the `Host` value `host` asks for.
pub fn hostname_from_host(host: Option<&str>) -> (name: Option<String>)
    ensures
        match name {
            Some(n) => requested_host(
                match host {
                    Some(h) => Some(h@),
                    None => None,
                },
            ) == Some(n@),
            None => requested_host(
                match host {
                    Some(h) => Some(h@),
                    None => None,
                },
            ) is None,
        },
{
    match host {
        None => None,
        Some(h) => {
            let v = chars_of(h);
            assert(v@.subrange(0, v.len() as int) =~= v@);
            let end = find_char(&v, 0, v.len(), ':');
            if end == 0 {
                None
            } else {
                let low = lower_range(&v, 0, end);
                assert(v@.subrange(0, end as int) =~= before_first(h@, ':'));
                Some(string_of(&low))
            }
        },
    }
}

/// The position of the first route registered under `hostname`, or the
/// number of routes where there is none.
pub open spec fn route_position(routes: Seq<RouteView>, hostname: Seq<char>) -> int
    decreases routes.len(),
{
    if routes.len() == 0 || routes[0].hostname == hostname {
        0
    } else {
        1 + route_position(routes.drop_first(), hostname)
    }
}

/// The backend port of the first route registered under `hostname`.
pub open spec fn route_port(routes: Seq<RouteView>, hostname: Seq<char>) -> Option<u16> {
    if route_position(routes, hostname) < routes.len() {
        Some(routes[route_position(routes, hostname)].port)
    } else {
        None
    }
}

/// [`route_position`] lies within `routes`, no route before it is
/// registered under the hostname, and the route at it is, unless it is
/// the number of routes.
pub proof fn lemma_route_position(routes: Seq<RouteView>, hostname: Seq<char>)
    ensures
        0 <= route_position(routes, hostname) <= routes.len(),
        forall|j: int|
            0 <= j < route_position(routes, hostname) ==> (#[trigger] routes[j]).hostname
                != hostname,
        route_position(routes, hostname) < routes.len() ==> routes[route_position(
            routes,
            hostname,
        )].hostname == hostname,
    decreases routes.len(),
{
    if routes.len() == 0 || routes[0].hostname == hostname {
    } else {
        let t = routes.drop_first();
        lemma_route_position(t, hostname);
        assert forall|j: int| 0 <= j < route_position(routes, hostname) implies (
        #[trigger] routes[j]).hostname != hostname by {
            if j > 0 {
                assert(routes[j] == t[j - 1]);
            }
        }
        if route_position(routes, hostname) < routes.len() {
            assert(routes[route_position(routes, hostname)] == t[route_position(t, hostname)]);
        }
    }
}

/// Looks up the backend port of `hostname` among `routes`.
pub fn find_route(routes: &[Route], hostname: &str) -> (port: Option<u16>)
    ensures
        port == route_port(route_views(routes@), hostname@),
{
    let ghost all = route_views(routes@);
    let name: String = hostname.to_owned();
    let mut i: usize = 0;
    proof {
        lemma_route_position(all, hostname@);
    }
    while i < routes.len()
        invariant
            i <= routes.len(),
            name@ == hostname@,
            all == route_views(routes@),
            forall|j: int| 0 <= j < i ==> (#[trigger] all[j]).hostname != hostname@,
        decreases routes.len() - i,
    {
        if routes[i].hostname == name {
            proof {
                lemma_route_position(all, hostname@);
                let k = route_position(all, hostname@);
                assert(all[i as int].hostname == hostname@);
                if k < i {
                    assert(all[k].hostname == hostname@);
                }
            }
            return Some(routes[i].port);
        }
        assert(all[i as int].hostname != hostname@);
        i = i + 1;
    }
    proof {
        lemma_route_position(all, hostname@);
        let k = route_position(all, hostname@);
        if k < all.len() {
            assert(all[k].hostname == hostname@);
        }
    }
    None
}

/// Whether an `Upgrade` value asks for a WebSocket: it is `websocket` in
/// any case.
pub open spec fn wants_websocket(upgrade: Option<Seq<char>>) -> bool {
    upgrade matches Some(u) && lower_seq(u) == "websocket"@
}

/// Whether the `Upgrade` value `upgrade` asks for a WebSocket.
pub fn is_websocket_upgrade(upgrade: Option<&str>) -> (b: bool)
    ensures
        b == wants_websocket(
            match upgrade {
                Some(u) => Some(u@),
                None => None,
            },
        ),
{
    match upgrade {
        Some(u) => lower_eq(u, "websocket"),
        None => false,
    }
}

/// What the proxy does with a request.
#[derive(Debug, Clone, PartialEq, Eq)]
pub enum Dispatch {
    /// Answer it with this response.
    Respond(ProxyResponse),
    /// Forward it as HTTP to the backend on this port.
    Forward { port: u16 },
    /// Open a WebSocket tunnel to the backend on this port.
    Tunnel { port: u16 },
}

/// The mathematical value of a [`Dispatch`].
pub enum DispatchView {
    Respond(ProxyResponseView),
    Forward { port: u16 },
    Tunnel { port: u16 },
}

impl View for Dispatch {
    type V = DispatchView;

    open spec fn view(&self) -> DispatchView {
        match self {
            Dispatch::Respond(r) => DispatchView::Respond(r@),
            Dispatch::Forward { port } => DispatchView::Forward { port: *port },
            Dispatch::Tunnel { port } => DispatchView::Tunnel { port: *port },
        }
    }
}

/// What the proxy on `proxy_port` does with a request that holds
/// `fields`, given `routes`: a request without a hostname is refused; one
/// for a hostname without a route gets the page that lists the routes;
/// any other goes to the backend of the first route under its hostname, as
/// a tunnel where it asks for a WebSocket and as HTTP where it does not.
pub open spec fn dispatch_spec(
    fields: Seq<HeaderFieldView>,
    routes: Seq<RouteView>,
    proxy_port: u16,
) -> DispatchView {
    match requested_host(header_text(fields, "host"@)) {
        None => DispatchView::Respond(plain_response(400, "Missing Host header"@)),
        Some(host) => match route_port(routes, host) {
            None => DispatchView::Respond(not_found_spec(routes, host, proxy_port)),
            Some(port) => if wants_websocket(header_text(fields, "upgrade"@)) {
                DispatchView::Tunnel { port }
            } else {
                DispatchView::Forward { port }
            },
        },
    }
}

/// Decides what the proxy on `proxy_port` does with a request that holds
/// `fields`, given the routes `routes`.
pub fn dispatch(fields: &Vec<HeaderField>, routes: &[Route], proxy_port: u16) -> (d: Dispatch)
    ensures
        d@ == dispatch_spec(field_views(fields@), route_views(routes@), proxy_port),
        d matches Dispatch::Respond(r) ==> carries_marker(r@.headers),
{
    let host = match hostname_from_host(get_header(fields, "host")) {
        Some(h) => h,
        None => {
            return Dispatch::Respond(bad_request_response("Missing Host header"));
        },
    };
    match find_route(routes, host.as_str()) {
        None => Dispatch::Respond(not_found_response(routes, host.as_str(), proxy_port)),
        Some(port) => {
            if is_websocket_upgrade(get_header(fields, "upgrade")) {
                Dispatch::Tunnel { port }
            } else {
                Dispatch::Forward { port }
            }
        },
    }
}

/// A loopback address at which a backend may listen.
#[derive(Debug, Clone, Copy, PartialEq, Eq, Structural)]
pub enum Loopback {
    /// `127.0.0.1`.
    V4,
    /// `::1`.
    V6,
}

impl Loopback {
    /// The address as text.
    pub fn host(&self) -> (h: &'static str)
        ensures
            h@ == (match self {
                Loopback::V4 => "127.0.0.1"@,
                Loopback::V6 => "::1"@,
            }),
    {
        match self {
            Loopback::V4 => "127.0.0.1",
            Loopback::V6 => "::1",
        }
    }
}

/// Connects to a backend: `dial` is asked for a connection at `127.0.0.1`
/// first, and at `::1` where that fails. What comes back is the first
/// connection that `dial` gave, and none only where it gave none at
/// either address: a backend that listens at `::1` alone is reached.
pub fn connect_to_backend<T, F: Fn(Loopback) -> Option<T>>(dial: F) -> (r: Option<T>)
    requires
        call_requires(dial, (Loopback::V4,)),
        call_requires(dial, (Loopback::V6,)),
    ensures
        match r {
            Some(t) => call_ensures(dial, (Loopback::V4,), Some(t)) || (call_ensures(
                dial,
                (Loopback::V4,),
                None::<T>,
            ) && call_ensures(dial, (Loopback::V6,), Some(t))),
            None => call_ensures(dial, (Loopback::V4,), None::<T>) && call_ensures(
                dial,
                (Loopback::V6,),
                None::<T>,
            ),
        },
{
    match dial(Loopback::V4) {
        Some(t) => Some(t),
        None => dial(Loopback::V6),
    }
}

/// Whether a connection error with this text only says that the peer went
/// away, and is not worth a log line.
pub fn is_peer_closed(message: &str) -> (b: bool)
    ensures
        b == (contains_seq(message@, "connection reset"@) || contains_seq(
            message@,
            "broken pipe"@,
        )),
{
    let v = chars_of(message);
    let reset = chars_of("connection reset");
    let pipe = chars_of("broken pipe");
    proof {
        reveal_strlit("connection reset");
        reveal_strlit("broken pipe");
        assert(v@.subrange(0, v.len() as int) =~= v@);
        lemma_first_occurrence(v@, reset@);
        lemma_first_occurrence(v@, pipe@);
    }
    let a = find_seq(&v, 0, v.len(), &reset);
    let b = find_seq(&v, 0, v.len(), &pipe);
    proof {
        if a < v.len() {
            assert(occurs_at(v@, reset@, a as int));
        } else {
            assert forall|j: int| !occurs_at(v@, reset@, j) by {}
        }
        if b < v.len() {
            assert(occurs_at(v@, pipe@, b as int));
        } else {
            assert forall|j: int| !occurs_at(v@, pipe@, j) by {}
        }
    }
    a < v.len() || b < v.len()
}

/// The hostname that the request with the header fields `headers` asks
/// for: what stands before the first colon of its `host` field, in lower
/// case.
pub fn extract_hostname(headers: &hyper::HeaderMap<hyper::header::HeaderValue>) -> (name: Option<
    String,
>)
    ensures
        match name {
            Some(n) => requested_host(header_text(map_fields(*headers), "host"@)) == Some(n@),
            None => requested_host(header_text(map_fields(*headers), "host"@)) is None,
        },
{
    let fields = read_fields(headers);
    hostname_from_host(get_header(&fields, "host"))
}

/// Decides what the proxy on `proxy_port` does with a request that has
/// the header fields `headers`, given the routes `routes`.
pub fn handle_request(
    headers: &hyper::HeaderMap<hyper::header::HeaderValue>,
    routes: &[Route],
    proxy_port: u16,
) -> (d: Dispatch)
    ensures
        d@ == dispatch_spec(map_fields(*headers), route_views(routes@), proxy_port),
        d matches Dispatch::Respond(r) ==> carries_marker(r@.headers),
{
    let fields = read_fields(headers);
    dispatch(&fields, routes, proxy_port)
}

} // verus!
