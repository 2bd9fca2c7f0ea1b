use portless::headers::HeaderField;
use portless::proxy::{
    bad_gateway_response, bad_request_response, connect_to_backend, dispatch, find_route,
    hostname_from_host, is_peer_closed, is_websocket_upgrade, marker_header, not_found_response,
    response_to_upgrade, switching_protocols_response, Dispatch, Loopback, ProxyResponse,
};
use std::cell::RefCell;
use portless::types::Route;

fn field(name: &str, value: &str) -> HeaderField {
    HeaderField { name: name.to_string(), value: Some(value.to_string()) }
}

fn pair(name: &str, value: &str) -> (String, String) {
    (name.to_string(), value.to_string())
}

fn route(hostname: &str, port: u16) -> Route {
    Route { hostname: hostname.to_string(), port, pid: 1 }
}

fn has_marker(r: &ProxyResponse) -> bool {
    r.headers.contains(&pair("x-portless", "1"))
}

#[test]
fn test_hostname_from_host() {
    assert_eq!(hostname_from_host(Some("foo.localhost:1355")), Some("foo.localhost".to_string()));
    assert_eq!(hostname_from_host(Some("Foo.LocalHost")), Some("foo.localhost".to_string()));
    assert_eq!(hostname_from_host(Some("a:b:c")), Some("a".to_string()));
    assert_eq!(hostname_from_host(Some("")), None);
    assert_eq!(hostname_from_host(Some(":1355")), None);
    assert_eq!(hostname_from_host(None), None);
    assert_eq!(hostname_from_host(Some("[::1]:80")), Some("[".to_string()));
}

#[test]
fn test_find_route_takes_the_first_match() {
    let routes = vec![route("a.localhost", 4000), route("b.localhost", 4001), route("a.localhost", 4002)];
    assert_eq!(find_route(&routes, "a.localhost"), Some(4000));
    assert_eq!(find_route(&routes, "b.localhost"), Some(4001));
    assert_eq!(find_route(&routes, "c.localhost"), None);
    assert_eq!(find_route(&routes, "A.localhost"), None);
    assert_eq!(find_route(&[], "a.localhost"), None);
}

#[test]
fn test_is_websocket_upgrade() {
    assert!(is_websocket_upgrade(Some("websocket")));
    assert!(is_websocket_upgrade(Some("WebSocket")));
    assert!(is_websocket_upgrade(Some("WEBSOCKET")));
    assert!(!is_websocket_upgrade(Some("websocket ")));
    assert!(!is_websocket_upgrade(Some("h2c")));
    assert!(!is_websocket_upgrade(Some("")));
    assert!(!is_websocket_upgrade(None));
}

#[test]
fn test_plain_responses() {
    let r = bad_request_response("Missing Host header");
    assert_eq!(r.status, 400);
    assert_eq!(r.body, "Missing Host header");
    assert_eq!(r.headers, vec![pair("content-type", "text/plain"), pair("x-portless", "1")]);

    let r = bad_gateway_response();
    assert_eq!(r.status, 502);
    assert_eq!(r.body, "Bad Gateway: the target app may not be running.");
    assert_eq!(r.headers, vec![pair("content-type", "text/plain"), pair("x-portless", "1")]);

    assert_eq!(marker_header(), pair("x-portless", "1"));
}

#[test]
fn test_switching_protocols_response() {
    let backend = vec![
        pair("upgrade", "websocket"),
        pair("connection", "Upgrade"),
        pair("sec-websocket-accept", "s3pPLMBiTxaQ9kYGzzhZRbK+xOo="),
    ];
    let r = switching_protocols_response(&backend);
    assert_eq!(r.status, 101);
    assert_eq!(r.body, "");
    assert_eq!(
        r.headers,
        vec![
            pair("x-portless", "1"),
            pair("upgrade", "websocket"),
            pair("connection", "Upgrade"),
            pair("sec-websocket-accept", "s3pPLMBiTxaQ9kYGzzhZRbK+xOo="),
        ]
    );
    assert_eq!(switching_protocols_response(&vec![]).headers, vec![pair("x-portless", "1")]);
}

#[test]
fn test_not_found_response_without_routes() {
    let r = not_found_response(&[], "ghost.localhost", 1355);
    assert_eq!(r.status, 404);
    assert_eq!(
        r.headers,
        vec![pair("content-type", "text/html; charset=utf-8"), pair("x-portless", "1")]
    );
    assert_eq!(
        r.body,
        "<html>\n  <head><title>portless - Not Found</title></head>\n  <body style=\"font-family: system-ui; padding: 40px; max-width: 600px; margin: 0 auto;\">\n    <h1>Not Found</h1>\n    <p>No app registered for <strong>ghost.localhost</strong></p>\n    <h2>Active apps:</h2>\n    <p><em>No apps running.</em></p>\n    <p>Start an app with: <code>portless ghost your-command</code></p>\n  </body>\n</html>"
    );
}

#[test]
fn test_not_found_response_lists_routes_and_escapes() {
    let routes = vec![route("app.localhost", 4000), route("a&b.localhost", 4001)];
    let r = not_found_response(&routes, "<x>.localhost.localhost", 80);
    assert!(r.body.contains("<strong>&lt;x&gt;.localhost.localhost</strong>"));
    assert!(r.body.contains(
        "<ul><li><a href=\"http://app.localhost\">app.localhost</a> - localhost:4000</li>\
         <li><a href=\"http://a&amp;b.localhost\">a&amp;b.localhost</a> - localhost:4001</li></ul>"
    ));
    assert!(r.body.contains("<code>portless &lt;x&gt; your-command</code>"));
    assert!(!r.body.contains("No apps running."));

    let r = not_found_response(&routes, "ghost.localhost", 1355);
    assert!(r.body.contains(
        "<li><a href=\"http://app.localhost:1355\">app.localhost</a> - localhost:4000</li>"
    ));
}

#[test]
fn test_dispatch_without_host() {
    let expected = Dispatch::Respond(bad_request_response("Missing Host header"));
    assert_eq!(dispatch(&vec![], &[route("a.localhost", 4000)], 1355), expected);
    assert_eq!(dispatch(&vec![field("host", "")], &[], 1355), expected);
    assert_eq!(dispatch(&vec![field("host", ":1355")], &[], 1355), expected);
    let opaque = HeaderField { name: "host".to_string(), value: None };
    assert_eq!(dispatch(&vec![opaque], &[], 1355), expected);
}

#[test]
fn test_dispatch_hostname_miss() {
    let fields = vec![field("host", "ghost.localhost")];
    let d = dispatch(&fields, &[], 1355);
    assert_eq!(d, Dispatch::Respond(not_found_response(&[], "ghost.localhost", 1355)));
    match d {
        Dispatch::Respond(r) => {
            assert_eq!(r.status, 404);
            assert!(r.headers.contains(&pair("content-type", "text/html; charset=utf-8")));
            assert!(r.body.contains("ghost.localhost"));
            assert!(r.body.contains("No apps running."));
            assert!(has_marker(&r));
        }
        _ => panic!("a response was expected"),
    }
}

#[test]
fn test_dispatch_forwards_and_tunnels() {
    let routes = vec![route("myapp.localhost", 4321), route("chat.localhost", 4400)];
    let fields = vec![field("host", "myapp.localhost")];
    assert_eq!(dispatch(&fields, &routes, 1355), Dispatch::Forward { port: 4321 });

    // The port of the Host value plays no part, nor does its case.
    let fields = vec![field("host", "MyApp.localhost:1355")];
    assert_eq!(dispatch(&fields, &routes, 1355), Dispatch::Forward { port: 4321 });

    let fields = vec![field("host", "chat.localhost"), field("upgrade", "WebSocket")];
    assert_eq!(dispatch(&fields, &routes, 1355), Dispatch::Tunnel { port: 4400 });

    let fields = vec![field("host", "chat.localhost"), field("upgrade", "h2c")];
    assert_eq!(dispatch(&fields, &routes, 1355), Dispatch::Forward { port: 4400 });

    // A request for a WebSocket under an unknown hostname gets the page.
    let fields = vec![field("host", "none.localhost"), field("upgrade", "websocket")];
    assert_eq!(
        dispatch(&fields, &routes, 1355),
        Dispatch::Respond(not_found_response(&routes, "none.localhost", 1355))
    );
}

#[test]
fn test_every_response_of_the_proxy_carries_the_marker() {
    assert!(has_marker(&bad_request_response("Missing Host header")));
    assert!(has_marker(&bad_gateway_response()));
    assert!(has_marker(&not_found_response(&[route("a.localhost", 4000)], "b.localhost", 1355)));
    assert!(has_marker(&switching_protocols_response(&vec![pair("upgrade", "websocket")])));
}

#[test]
fn test_backend_hosts() {
    assert_eq!(Loopback::V4.host(), "127.0.0.1");
    assert_eq!(Loopback::V6.host(), "::1");
}

#[test]
fn test_connect_to_backend() {
    // A backend at both addresses is reached at the first, and the second is not asked.
    let asked: RefCell<Vec<Loopback>> = RefCell::new(Vec::new());
    let r = connect_to_backend(|at| {
        asked.borrow_mut().push(at);
        Some(at.host())
    });
    assert_eq!(r, Some("127.0.0.1"));
    assert_eq!(asked.into_inner(), vec![Loopback::V4]);

    // A backend that listens at the second address alone is reached there.
    let asked: RefCell<Vec<Loopback>> = RefCell::new(Vec::new());
    let r = connect_to_backend(|at| {
        asked.borrow_mut().push(at);
        if at == Loopback::V6 {
            Some(at.host())
        } else {
            None
        }
    });
    assert_eq!(r, Some("::1"));
    assert_eq!(asked.into_inner(), vec![Loopback::V4, Loopback::V6]);

    // No backend: both were asked.
    let asked: RefCell<Vec<Loopback>> = RefCell::new(Vec::new());
    let r: Option<u8> = connect_to_backend(|at| {
        asked.borrow_mut().push(at);
        None
    });
    assert_eq!(r, None);
    assert_eq!(asked.into_inner(), vec![Loopback::V4, Loopback::V6]);
}

#[test]
fn test_is_peer_closed() {
    assert!(is_peer_closed("connection reset by peer"));
    assert!(is_peer_closed("error: broken pipe (os error 32)"));
    assert!(is_peer_closed("broken pipe"));
    assert!(!is_peer_closed("Connection reset by peer"));
    assert!(!is_peer_closed("connection refused"));
    assert!(!is_peer_closed("broken pip"));
    assert!(!is_peer_closed(""));
}

#[test]
fn test_response_to_upgrade() {
    let backend = vec![pair("sec-websocket-accept", "s3pPLMBiTxaQ9kYGzzhZRbK+xOo=")];
    assert_eq!(response_to_upgrade(101, &backend), switching_protocols_response(&backend));
    assert_eq!(response_to_upgrade(200, &backend), bad_gateway_response());
    assert_eq!(response_to_upgrade(404, &backend), bad_gateway_response());
    assert_eq!(response_to_upgrade(100, &vec![]), bad_gateway_response());
    assert_eq!(response_to_upgrade(502, &vec![]).body, "Bad Gateway: the target app may not be running.");
}
