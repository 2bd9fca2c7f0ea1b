use hyper::header::{HeaderName, HeaderValue};
use hyper::HeaderMap;
use portless::header_map::{
    fallback_for, mark_response, rewrite_for_backend, websocket_request, SetOutcome, ROOM_LIMIT,
};
use portless::proxy::{extract_hostname, handle_request, not_found_response, Dispatch};
use portless::types::Route;

fn name(text: &str) -> HeaderName {
    HeaderName::from_bytes(text.as_bytes()).unwrap()
}

fn map_of(fields: &[(&str, &str)]) -> HeaderMap {
    let mut map = HeaderMap::new();
    for (n, v) in fields {
        map.append(name(n), HeaderValue::from_str(v).unwrap());
    }
    map
}

fn listed(map: &HeaderMap) -> Vec<(String, String)> {
    map.iter()
        .map(|(n, v)| (n.as_str().to_string(), String::from_utf8_lossy(v.as_bytes()).into_owned()))
        .collect()
}

fn pairs(fields: &[(&str, &str)]) -> Vec<(String, String)> {
    fields.iter().map(|(n, v)| (n.to_string(), v.to_string())).collect()
}

fn route(hostname: &str, port: u16) -> Route {
    Route { hostname: hostname.to_string(), port, pid: 1 }
}

#[test]
fn test_rewrite_for_backend_happy_path() {
    let mut map = map_of(&[("host", "myapp.localhost"), ("accept", "*/*")]);
    let outcomes = rewrite_for_backend(&mut map, 4321, "127.0.0.1");
    assert_eq!(outcomes, vec![SetOutcome::Applied; 5]);
    assert_eq!(
        listed(&map),
        pairs(&[
            ("host", "localhost:4321"),
            ("accept", "*/*"),
            ("x-forwarded-for", "127.0.0.1"),
            ("x-forwarded-proto", "http"),
            ("x-forwarded-host", "myapp.localhost"),
            ("x-forwarded-port", "80"),
        ])
    );
}

#[test]
fn test_rewrite_for_backend_keeps_what_is_there() {
    let mut map = map_of(&[
        ("accept", "*/*"),
        ("x-forwarded-proto", "https"),
        ("host", "MyApp.localhost:1355"),
        ("x-forwarded-for", "10.1.1.1"),
        ("x-forwarded-host", "public.example"),
        ("x-forwarded-port", "443"),
    ]);
    let outcomes = rewrite_for_backend(&mut map, 4000, "192.168.0.7");
    assert_eq!(outcomes, vec![SetOutcome::Applied; 2]);
    assert_eq!(
        listed(&map),
        pairs(&[
            ("accept", "*/*"),
            ("x-forwarded-proto", "https"),
            ("host", "localhost:4000"),
            ("x-forwarded-for", "10.1.1.1, 192.168.0.7"),
            ("x-forwarded-host", "public.example"),
            ("x-forwarded-port", "443"),
        ])
    );
}

#[test]
fn test_rewrite_for_backend_replaces_every_value_of_a_field() {
    let mut map = map_of(&[
        ("x-forwarded-for", "10.0.0.1"),
        ("host", "a.localhost:8080"),
        ("x-forwarded-for", "10.0.0.2"),
        ("cookie", "a=1"),
        ("host", "b.localhost"),
        ("x-forwarded-for", "10.0.0.3"),
    ]);
    let outcomes = rewrite_for_backend(&mut map, 4002, "::1");
    assert_eq!(outcomes.len(), 5);
    assert_eq!(
        listed(&map),
        pairs(&[
            ("x-forwarded-for", "10.0.0.1, ::1"),
            ("host", "localhost:4002"),
            ("cookie", "a=1"),
            ("x-forwarded-proto", "http"),
            ("x-forwarded-host", "a.localhost:8080"),
            ("x-forwarded-port", "8080"),
        ])
    );
}

#[test]
fn test_rewrite_for_backend_falls_back_where_a_value_is_refused() {
    let mut map = map_of(&[("host", "myapp.localhost")]);
    let outcomes = rewrite_for_backend(&mut map, 4321, "bad\naddress");
    assert_eq!(
        outcomes,
        vec![
            SetOutcome::Applied,
            SetOutcome::Fallback,
            SetOutcome::Applied,
            SetOutcome::Applied,
            SetOutcome::Applied,
        ]
    );
    assert_eq!(map.get("x-forwarded-for").unwrap(), "unknown");
    assert_eq!(fallback_for("host"), Some("localhost"));
    assert_eq!(fallback_for("x-forwarded-for"), Some("unknown"));
    assert_eq!(fallback_for("x-forwarded-host"), Some("unknown"));
    assert_eq!(fallback_for("x-forwarded-port"), Some("80"));
    assert_eq!(fallback_for("x-forwarded-proto"), None);
    assert_eq!(fallback_for("accept"), None);
}

#[test]
fn test_rewrite_for_backend_with_values_that_are_no_text() {
    let mut map = HeaderMap::new();
    map.insert(name("host"), HeaderValue::from_bytes(b"caf\xe9.localhost").unwrap());
    map.insert(name("x-forwarded-for"), HeaderValue::from_bytes(b"\xff").unwrap());
    let outcomes = rewrite_for_backend(&mut map, 4100, "127.0.0.1");
    assert_eq!(outcomes, vec![SetOutcome::Applied; 5]);
    assert_eq!(
        listed(&map),
        pairs(&[
            ("host", "localhost:4100"),
            ("x-forwarded-for", "127.0.0.1"),
            ("x-forwarded-proto", "http"),
            ("x-forwarded-host", ""),
            ("x-forwarded-port", "80"),
        ])
    );
}

#[test]
fn test_mark_response() {
    let mut map = map_of(&[("content-type", "text/plain")]);
    assert!(mark_response(&mut map));
    assert_eq!(listed(&map), pairs(&[("content-type", "text/plain"), ("x-portless", "1")]));

    // A marker that a backend set is replaced, in its place.
    let mut map = map_of(&[("x-portless", "0"), ("server", "dev"), ("x-portless", "2")]);
    assert!(mark_response(&mut map));
    assert_eq!(listed(&map), pairs(&[("x-portless", "1"), ("server", "dev")]));
}

#[test]
fn test_websocket_request_from_a_header_map() {
    let map = map_of(&[
        ("host", "chat.localhost:1355"),
        ("upgrade", "websocket"),
        ("connection", "Upgrade"),
        ("sec-websocket-key", "dGhlIHNhbXBsZSBub25jZQ=="),
    ]);
    assert_eq!(
        websocket_request("GET", "/socket", &map, 4400, "127.0.0.1"),
        "GET /socket HTTP/1.1\r\n\
         host: localhost:4400\r\n\
         upgrade: websocket\r\n\
         connection: Upgrade\r\n\
         sec-websocket-key: dGhlIHNhbXBsZSBub25jZQ==\r\n\
         x-forwarded-for: 127.0.0.1\r\n\
         x-forwarded-host: chat.localhost:1355\r\n\
         x-forwarded-proto: http\r\n\
         x-forwarded-port: 1355\r\n\
         \r\n"
    );
}

#[test]
fn test_websocket_request_leaves_out_values_that_are_no_text() {
    let mut map = map_of(&[("host", "chat.localhost")]);
    map.insert(name("x-raw"), HeaderValue::from_bytes(b"\xfe\xff").unwrap());
    map.insert(name("x-forwarded-proto"), HeaderValue::from_bytes(b"\xfe").unwrap());
    assert_eq!(
        websocket_request("GET", "/", &map, 4400, "127.0.0.1"),
        "GET / HTTP/1.1\r\n\
         host: localhost:4400\r\n\
         x-forwarded-for: 127.0.0.1\r\n\
         x-forwarded-host: chat.localhost\r\n\
         x-forwarded-port: 80\r\n\
         \r\n"
    );
}

#[test]
fn test_extract_hostname() {
    assert_eq!(
        extract_hostname(&map_of(&[("host", "foo.localhost:1355")])),
        Some("foo.localhost".to_string())
    );
    assert_eq!(
        extract_hostname(&map_of(&[("accept", "*/*"), ("Host", "Foo.Localhost")])),
        Some("foo.localhost".to_string())
    );
    assert_eq!(
        extract_hostname(&map_of(&[("host", "first.localhost"), ("host", "second.localhost")])),
        Some("first.localhost".to_string())
    );
    assert_eq!(extract_hostname(&map_of(&[("host", "")])), None);
    assert_eq!(extract_hostname(&map_of(&[("host", ":1355")])), None);
    assert_eq!(extract_hostname(&HeaderMap::new()), None);
    let mut map = HeaderMap::new();
    map.insert(name("host"), HeaderValue::from_bytes(b"\xffoo.localhost").unwrap());
    assert_eq!(extract_hostname(&map), None);
}

#[test]
fn test_handle_request() {
    let routes = vec![route("myapp.localhost", 4321), route("chat.localhost", 4400)];

    let map = map_of(&[("host", "myapp.localhost:1355")]);
    assert_eq!(handle_request(&map, &routes, 1355), Dispatch::Forward { port: 4321 });

    let map = map_of(&[("host", "chat.localhost"), ("upgrade", "WebSocket")]);
    assert_eq!(handle_request(&map, &routes, 1355), Dispatch::Tunnel { port: 4400 });

    let map = map_of(&[("host", "ghost.localhost")]);
    assert_eq!(
        handle_request(&map, &routes, 1355),
        Dispatch::Respond(not_found_response(&routes, "ghost.localhost", 1355))
    );

    match handle_request(&HeaderMap::new(), &routes, 1355) {
        Dispatch::Respond(r) => {
            assert_eq!(r.status, 400);
            assert_eq!(r.body, "Missing Host header");
        }
        other => panic!("unexpected {:?}", other),
    }
}

fn map_with(fields: usize) -> HeaderMap {
    let mut map = HeaderMap::new();
    for i in 0..fields {
        map.append(name(&format!("h{}", i)), HeaderValue::from_static("v"));
    }
    map
}

#[test]
fn test_a_map_with_room_takes_the_marker() {
    assert_eq!(ROOM_LIMIT, 6554);
    for fields in [0, 1, 100, ROOM_LIMIT - 1] {
        let mut map = map_with(fields);
        assert!(mark_response(&mut map));
        assert_eq!(map.len(), fields + 1);
        assert_eq!(map.get("x-portless").unwrap(), "1");
        assert_eq!(listed(&map).last().unwrap(), &("x-portless".to_string(), "1".to_string()));
    }
}

#[test]
fn test_a_map_with_room_takes_every_forwarding_field() {
    let mut map = map_with(ROOM_LIMIT - 1);
    let outcomes = rewrite_for_backend(&mut map, 4000, "127.0.0.1");
    assert_eq!(outcomes, vec![SetOutcome::Applied; 5]);
    assert_eq!(map.len(), ROOM_LIMIT + 4);
    assert_eq!(map.get("host").unwrap(), "localhost:4000");
}

#[test]
fn test_a_map_without_room_is_left_as_it_is() {
    let mut map = HeaderMap::new();
    let mut fields = 0;
    while map.try_append(name(&format!("h{}", fields)), HeaderValue::from_static("v")).is_ok() {
        fields += 1;
    }
    // The map ran out of room no earlier than it may.
    assert!(fields >= ROOM_LIMIT);
    assert_eq!(map.len(), fields);

    assert!(!mark_response(&mut map));
    assert_eq!(map.len(), fields);
    assert!(!map.contains_key("x-portless"));

    let outcomes = rewrite_for_backend(&mut map, 4000, "127.0.0.1");
    assert_eq!(outcomes, vec![SetOutcome::Skipped; 5]);
    assert_eq!(map.len(), fields);
    assert!(!map.contains_key("host"));
    assert_eq!(listed(&map), listed(&map_with(fields)));
}
