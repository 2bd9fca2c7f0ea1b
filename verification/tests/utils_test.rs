use nix::sys::signal::Signal;
use nix::sys::signal::Signal::{SIGHUP, SIGINT, SIGKILL, SIGTERM};
use portless::utils::{
    can_bind, discover_state, escape_html, exit_code_for_signal_number, find_free_port, format_url,
    get_default_port, interpret_answer, is_integration_disabled, is_portless_response,
    is_privileged_port, parse_hostname, parse_listener_pid, parse_pid_text, parse_port_text,
    probe_request, resolve_state_dir, signal_exit_code, validate_hostname, HostnameFault,
    ProxySighting, StartChoice, DEFAULT_PROXY_PORT, MAX_APP_PORT, MIN_APP_PORT,
    PRIVILEGED_PORT_THRESHOLD, RANDOM_PORT_ATTEMPTS, SOCKET_TIMEOUT_MS,
    WAIT_FOR_PROXY_INTERVAL_MS, WAIT_FOR_PROXY_MAX_ATTEMPTS,
};
use std::cell::RefCell;

#[test]
fn test_format_url_standard_port() {
    assert_eq!(format_url("test.localhost", 1355), "http://test.localhost:1355");
    assert_eq!(format_url("app.localhost", 3000), "http://app.localhost:3000");
}

#[test]
fn test_format_url_port_80() {
    assert_eq!(format_url("test.localhost", 80), "http://test.localhost");
}

#[test]
fn test_format_url() {
    assert_eq!(format_url("test.localhost", 1355), "http://test.localhost:1355");
    assert_eq!(format_url("test.localhost", 80), "http://test.localhost");
}

#[test]
fn test_format_url_port_bounds() {
    assert_eq!(format_url("a.localhost", 0), "http://a.localhost:0");
    assert_eq!(format_url("a.localhost", 9), "http://a.localhost:9");
    assert_eq!(format_url("a.localhost", 10), "http://a.localhost:10");
    assert_eq!(format_url("a.localhost", 65535), "http://a.localhost:65535");
    assert_eq!(format_url("", 81), "http://:81");
}

#[test]
fn test_parse_hostname_simple() {
    assert_eq!(parse_hostname("test").unwrap(), "test.localhost");
    assert_eq!(parse_hostname("myapp").unwrap(), "myapp.localhost");
}

#[test]
fn test_parse_hostname_with_localhost() {
    assert_eq!(parse_hostname("test.localhost").unwrap(), "test.localhost");
    assert_eq!(parse_hostname("my-app.localhost").unwrap(), "my-app.localhost");
}

#[test]
fn test_parse_hostname_with_protocol() {
    assert_eq!(parse_hostname("http://test").unwrap(), "test.localhost");
    assert_eq!(parse_hostname("https://test").unwrap(), "test.localhost");
    assert_eq!(parse_hostname("http://test.localhost").unwrap(), "test.localhost");
}

#[test]
fn test_parse_hostname_with_path() {
    assert_eq!(parse_hostname("test/path").unwrap(), "test.localhost");
    assert_eq!(parse_hostname("http://test/path/to/resource").unwrap(), "test.localhost");
}

#[test]
fn test_parse_hostname_case_insensitive() {
    assert_eq!(parse_hostname("MyApp").unwrap(), "myapp.localhost");
    assert_eq!(parse_hostname("TEST").unwrap(), "test.localhost");
}

#[test]
fn test_parse_hostname_with_hyphens() {
    assert_eq!(parse_hostname("my-app").unwrap(), "my-app.localhost");
    assert_eq!(parse_hostname("test-123").unwrap(), "test-123.localhost");
}

#[test]
fn test_parse_hostname_with_dots() {
    assert_eq!(parse_hostname("sub.domain").unwrap(), "sub.domain.localhost");
}

#[test]
fn test_parse_hostname_empty() {
    assert!(parse_hostname("").is_err());
    assert!(parse_hostname("  ").is_err());
    assert!(parse_hostname(".localhost").is_err());
}

#[test]
fn test_parse_hostname_consecutive_dots() {
    assert!(parse_hostname("test..app").is_err());
    assert!(parse_hostname("..test").is_err());
}

#[test]
fn test_parse_hostname_invalid_characters() {
    assert!(parse_hostname("test_app").is_err()); // underscore not allowed
    assert!(parse_hostname("test@app").is_err());
    assert!(parse_hostname("test app").is_err()); // space not allowed
}

#[test]
fn test_parse_hostname_invalid_start_end() {
    assert!(parse_hostname("-test").is_err()); // cannot start with hyphen
    assert!(parse_hostname("test-").is_err()); // cannot end with hyphen
    assert!(parse_hostname(".test").is_err()); // cannot start with dot
}

#[test]
fn test_hostname_parsing() {
    // Valid cases
    assert_eq!(parse_hostname("test").unwrap(), "test.localhost");
    assert_eq!(parse_hostname("my-app").unwrap(), "my-app.localhost");
    assert_eq!(parse_hostname("http://test").unwrap(), "test.localhost");

    // Invalid cases
    assert!(parse_hostname("").is_err());
    assert!(parse_hostname("test_app").is_err());
    assert!(parse_hostname("-test").is_err());
}

#[test]
fn test_parse_hostname_boundaries() {
    assert_eq!(parse_hostname("a").unwrap(), "a.localhost");
    assert!(parse_hostname("a-").is_err());
    assert!(parse_hostname("a..b").is_err());
    assert_eq!(parse_hostname("A").unwrap(), "a.localhost");
    assert_eq!(parse_hostname("7").unwrap(), "7.localhost");
    assert_eq!(parse_hostname("a-b.c").unwrap(), "a-b.c.localhost");
    assert_eq!(parse_hostname("localhost").unwrap(), "localhost.localhost");
    assert_eq!(parse_hostname("a.localhost.localhost").unwrap(), "a.localhost.localhost");
}

#[test]
fn test_parse_hostname_trims_unicode_whitespace() {
    assert_eq!(parse_hostname("\u{a0}\t web \u{3000}\r\n").unwrap(), "web.localhost");
    assert_eq!(parse_hostname(" HTTPS://Web/x ").unwrap_err().fault, HostnameFault::InvalidCharacters);
    assert_eq!(parse_hostname(" https://Web/x ").unwrap(), "web.localhost");
}

#[test]
fn test_parse_hostname_scheme_is_stripped_once_and_before_lowering() {
    // Only the lower-case scheme is a scheme; the rest is then a label with a colon.
    assert!(parse_hostname("HTTP://test").is_err());
    // https is tried first, and only one scheme is removed.
    assert!(parse_hostname("https://http://x").is_err());
    // A scheme with nothing behind it leaves nothing.
    assert_eq!(parse_hostname("http://").unwrap_err().fault, HostnameFault::Empty);
    assert_eq!(parse_hostname("/path").unwrap_err().fault, HostnameFault::Empty);
}

#[test]
fn test_parse_hostname_faults() {
    let e = parse_hostname("").unwrap_err();
    assert_eq!(e.fault, HostnameFault::Empty);
    assert_eq!(e.label, "");
    assert_eq!(e.message(), "Hostname cannot be empty");

    let e = parse_hostname(".localhost").unwrap_err();
    assert_eq!(e.fault, HostnameFault::Empty);

    let e = parse_hostname("test..app").unwrap_err();
    assert_eq!(e.fault, HostnameFault::ConsecutiveDots);
    assert_eq!(e.label, "test..app");
    assert_eq!(
        e.message(),
        "Invalid hostname \"test..app\": consecutive dots are not allowed"
    );

    let e = parse_hostname("Test_App.localhost").unwrap_err();
    assert_eq!(e.fault, HostnameFault::InvalidCharacters);
    assert_eq!(e.label, "test_app");
    assert_eq!(
        e.message(),
        "Invalid hostname \"test_app\": must contain only lowercase letters, digits, hyphens, and dots"
    );

    // Two dots are reported before a bad first character.
    assert_eq!(parse_hostname("..test").unwrap_err().fault, HostnameFault::ConsecutiveDots);
    // Non-ASCII letters are not lowered and not accepted.
    assert_eq!(parse_hostname("caf\u{e9}").unwrap_err().fault, HostnameFault::InvalidCharacters);
}

#[test]
fn test_parse_hostname_is_idempotent_on_accepted_input() {
    let inputs = [
        "test", "MyApp", "http://test/path", "a", "sub.domain", "my-app.localhost",
        " https://X-1.Y/z ", "a.localhost.localhost", "localhost",
    ];
    for input in inputs {
        let once = parse_hostname(input).unwrap();
        let twice = parse_hostname(&once).unwrap();
        assert_eq!(once, twice);
    }
}

#[test]
fn test_validate_hostname() {
    assert!(validate_hostname("test.localhost").is_ok());
    assert!(validate_hostname("a").is_ok());
    assert!(validate_hostname("a.b-c.localhost").is_ok());

    let e = validate_hostname(".localhost").unwrap_err();
    assert_eq!(e.fault, HostnameFault::EmptyLabel);
    assert_eq!(e.message(), "Hostname label cannot be empty");
    assert_eq!(validate_hostname("").unwrap_err().fault, HostnameFault::EmptyLabel);

    assert_eq!(validate_hostname("a..b.localhost").unwrap_err().fault, HostnameFault::ConsecutiveDots);
    assert_eq!(validate_hostname("a-.localhost").unwrap_err().fault, HostnameFault::InvalidCharacters);
    assert_eq!(validate_hostname("-a.localhost").unwrap_err().fault, HostnameFault::InvalidCharacters);
    assert_eq!(validate_hostname("a_b.localhost").unwrap_err().fault, HostnameFault::InvalidCharacters);
    // The grammar is lower case.
    assert_eq!(validate_hostname("Ab.localhost").unwrap_err().fault, HostnameFault::InvalidCharacters);
    assert_eq!(validate_hostname("aB").unwrap_err().fault, HostnameFault::InvalidCharacters);
    assert_eq!(validate_hostname("aBc").unwrap_err().fault, HostnameFault::InvalidCharacters);
}

#[test]
fn test_escape_html() {
    assert_eq!(escape_html("hello"), "hello");
    assert_eq!(escape_html("<script>"), "&lt;script&gt;");
    assert_eq!(escape_html("a & b"), "a &amp; b");
    assert_eq!(escape_html("\"quotes\""), "&quot;quotes&quot;");
    assert_eq!(escape_html("'single'"), "&#39;single&#39;");
    assert_eq!(
        escape_html("<div class=\"test\">a & b</div>"),
        "&lt;div class=&quot;test&quot;&gt;a &amp; b&lt;/div&gt;"
    );
}

#[test]
fn test_html_escaping() {
    assert_eq!(
        escape_html("<script>alert('xss')</script>"),
        "&lt;script&gt;alert(&#39;xss&#39;)&lt;/script&gt;"
    );
    assert_eq!(escape_html("a & b"), "a &amp; b");
}

#[test]
fn test_escape_html_matches_chained_replacement() {
    let samples = ["", "&amp;", "&&", "<&>\"'", "a&lt;b", "\u{e9}<\u{3000}>", "&#39;"];
    for s in samples {
        let expected = s
            .replace('&', "&amp;")
            .replace('<', "&lt;")
            .replace('>', "&gt;")
            .replace('"', "&quot;")
            .replace('\'', "&#39;");
        assert_eq!(escape_html(s), expected);
    }
}

#[test]
fn test_escape_html_leaves_no_markup() {
    let out = escape_html("<a href=\"x\" title='y'>&</a>");
    assert!(!out.contains('<'));
    assert!(!out.contains('>'));
    assert!(!out.contains('"'));
    assert!(!out.contains('\''));
}

#[test]
fn test_signal_exit_code() {
    assert_eq!(signal_exit_code(SIGINT), 130); // 128 + 2
    assert_eq!(signal_exit_code(SIGTERM), 143); // 128 + 15
    assert_eq!(signal_exit_code(SIGHUP), 129); // 128 + 1
    assert_eq!(signal_exit_code(SIGKILL), 137); // 128 + 9
}

#[test]
fn test_signal_exit_codes() {

    assert_eq!(signal_exit_code(Signal::SIGINT), 130);
    assert_eq!(signal_exit_code(Signal::SIGTERM), 143);
}

#[test]
fn test_signal_exit_code_of_the_other_signals() {
    assert_eq!(signal_exit_code(Signal::SIGQUIT), 131);
    assert_eq!(signal_exit_code(Signal::SIGABRT), 134);
    assert_eq!(signal_exit_code(Signal::SIGUSR1), 128 + Signal::SIGUSR1 as i32);
    assert_eq!(signal_exit_code(Signal::SIGSEGV), 128 + Signal::SIGSEGV as i32);
    assert_ne!(signal_exit_code(Signal::SIGUSR1), signal_exit_code(Signal::SIGTERM));
    assert_eq!(exit_code_for_signal_number(1), 129);
    assert_eq!(exit_code_for_signal_number(2), 130);
    assert_eq!(exit_code_for_signal_number(9), 137);
    assert_eq!(exit_code_for_signal_number(15), 143);
    assert_eq!(exit_code_for_signal_number(31), 159);
    assert_eq!(exit_code_for_signal_number(0), 128);
    assert_eq!(exit_code_for_signal_number(-1), 127);
    assert_eq!(exit_code_for_signal_number(i32::MAX - 128), i32::MAX);
    assert_eq!(exit_code_for_signal_number(i32::MAX - 127), i32::MAX);
    assert_eq!(exit_code_for_signal_number(i32::MAX), i32::MAX);
    assert_eq!(exit_code_for_signal_number(i32::MIN), i32::MIN + 128);
}

#[test]
fn test_resolve_state_dir_privileged() {
    let dir = resolve_state_dir(80, None, Some("/home/me"));
    assert_eq!(dir, "/tmp/portless");
}

#[test]
fn test_resolve_state_dir_user_level() {
    assert_eq!(resolve_state_dir(1355, None, Some("/home/me")), "/home/me/.portless");
    assert_eq!(resolve_state_dir(1355, None, None), "/tmp/.portless");
}

#[test]
fn test_state_dir_resolution() {

    // Privileged port
    let dir = resolve_state_dir(80, None, Some("/home/me"));
    assert_eq!(dir, "/tmp/portless");

    // User-level port
    let dir = resolve_state_dir(1355, None, Some("/home/me"));
    assert!(dir.contains(".portless"));
}

#[test]
fn test_resolve_state_dir_boundaries() {
    assert_eq!(resolve_state_dir(1023, None, Some("/h")), "/tmp/portless");
    assert_eq!(resolve_state_dir(1024, None, Some("/h")), "/h/.portless");
    assert_eq!(resolve_state_dir(1024, None, Some("/h/")), "/h/.portless");
    assert_eq!(resolve_state_dir(80, Some("/custom"), Some("/h")), "/custom");
    assert_eq!(resolve_state_dir(1355, Some(""), None), "");
    assert!(is_privileged_port(0));
    assert!(is_privileged_port(1023));
    assert!(!is_privileged_port(1024));
}

#[test]
fn test_get_default_port() {
    // Default value when nothing is configured
    assert_eq!(get_default_port(None), DEFAULT_PROXY_PORT);

    // Custom value
    assert_eq!(get_default_port(Some("8080")), 8080);
}

#[test]
fn test_get_default_port_falls_back() {
    assert_eq!(get_default_port(Some("")), 1355);
    assert_eq!(get_default_port(Some(" 8080")), 1355);
    assert_eq!(get_default_port(Some("65536")), 1355);
    assert_eq!(get_default_port(Some("http")), 1355);
    assert_eq!(get_default_port(Some("+80")), 80);
    assert_eq!(get_default_port(Some("0")), 0);
}

#[test]
fn test_constants() {
    assert_eq!(DEFAULT_PROXY_PORT, 1355);
    assert_eq!(PRIVILEGED_PORT_THRESHOLD, 1024);
    assert_eq!(MIN_APP_PORT, 4000);
    assert_eq!(MAX_APP_PORT, 4999);
    assert_eq!(RANDOM_PORT_ATTEMPTS, 50);
    assert_eq!(SOCKET_TIMEOUT_MS, 500);
    assert_eq!(WAIT_FOR_PROXY_MAX_ATTEMPTS, 20);
    assert_eq!(WAIT_FOR_PROXY_INTERVAL_MS, 250);
}

#[test]
fn test_parse_port_and_pid_text() {
    assert_eq!(parse_port_text("1355"), Some(1355));
    assert_eq!(parse_port_text(" 1355\n"), Some(1355));
    assert_eq!(parse_port_text("65535"), Some(65535));
    assert_eq!(parse_port_text("65536"), None);
    assert_eq!(parse_port_text(""), None);
    assert_eq!(parse_port_text("13 55"), None);
    assert_eq!(parse_port_text("-1"), None);

    assert_eq!(parse_pid_text("12345\n"), Some(12345));
    assert_eq!(parse_pid_text("  -7 "), Some(-7));
    assert_eq!(parse_pid_text("2147483648"), None);
    assert_eq!(parse_pid_text("pid"), None);
    assert_eq!(parse_pid_text(""), None);

    assert_eq!(parse_listener_pid("4242\n4243\n"), Some(4242));
    assert_eq!(parse_listener_pid("\n\n  4242  \r\n17\n"), Some(4242));
    assert_eq!(parse_listener_pid("4242"), Some(4242));
    assert_eq!(parse_listener_pid(""), None);
    assert_eq!(parse_listener_pid("  \n"), None);
    assert_eq!(parse_listener_pid("lsof: no\n4242\n"), None);
    assert_eq!(parse_listener_pid("4294967295"), Some(4294967295));
    assert_eq!(parse_listener_pid("4294967296"), None);
}

#[test]
fn test_discover_state() {
    let up = |port| Some(ProxySighting { port, answers: true });
    let down = |port| Some(ProxySighting { port, answers: false });

    // A configured directory wins, with its own port or the default.
    assert_eq!(
        discover_state(Some("/state"), Some(2000), Some("/h"), up(1400), up(80), 1355),
        ("/state".to_string(), 2000)
    );
    assert_eq!(
        discover_state(Some("/state"), None, Some("/h"), up(1400), up(80), 1355),
        ("/state".to_string(), 1355)
    );
    // Then the user's directory, where a proxy answers.
    assert_eq!(
        discover_state(None, None, Some("/h"), up(1400), up(80), 1355),
        ("/h/.portless".to_string(), 1400)
    );
    assert_eq!(
        discover_state(None, Some(9), None, up(80), None, 1355),
        ("/tmp/.portless".to_string(), 80)
    );
    // Then the system's.
    assert_eq!(
        discover_state(None, None, Some("/h"), down(1400), up(80), 1355),
        ("/tmp/portless".to_string(), 80)
    );
    assert_eq!(
        discover_state(None, None, Some("/h"), None, up(2000), 1355),
        ("/tmp/portless".to_string(), 2000)
    );
    // Else the defaults.
    assert_eq!(
        discover_state(None, None, Some("/h"), down(1400), down(80), 1355),
        ("/h/.portless".to_string(), 1355)
    );
    assert_eq!(discover_state(None, None, Some("/h"), None, None, 443), ("/tmp/portless".to_string(), 443));
}

#[test]
fn test_probe_request_and_response() {
    assert_eq!(
        probe_request(1355),
        "HEAD / HTTP/1.0\r\nHost: 127.0.0.1:1355\r\nConnection: close\r\n\r\n"
    );
    assert!(is_portless_response("HTTP/1.0 404 Not Found\r\nx-portless: 1\r\n\r\n"));
    assert!(is_portless_response("HTTP/1.0 200 OK\r\nX-Portless: 1\r\n\r\n"));
    assert!(is_portless_response("x-portless: 1"));
    assert!(is_portless_response("X-PORTLESS: 10"));
    // A server that answers without the marker is no proxy of this kind.
    assert!(!is_portless_response("HTTP/1.0 200 OK\r\nServer: nginx\r\n\r\n"));
    // The marker counts in the head only.
    assert!(!is_portless_response("HTTP/1.0 200 OK\r\nServer: dev\r\n\r\nx-portless: 1"));
    assert!(is_portless_response("HTTP/1.0 200 OK\r\nX-Portless: 1\r\n\r\nbody\r\n\r\n"));
    assert!(is_portless_response("HTTP/1.0 200 OK\nx-portless: 1\n\nbody"));
    assert!(!is_portless_response("\r\n\r\nx-portless: 1"));
    assert!(!is_portless_response("x-portless:1"));
    assert!(!is_portless_response("x-portless: "));
    assert!(!is_portless_response(""));
}

#[test]
fn test_is_proxy_running_no_server() {
    // Nothing listens: nothing is read, and nothing is no marker.
    assert!(!is_portless_response(""));
}

#[test]
fn test_find_free_port() {
    let port = find_free_port(|_| true).unwrap();
    assert!(port >= MIN_APP_PORT);
    assert!(port <= MAX_APP_PORT);
}

#[test]
fn test_port_utilities() {

    let port = find_free_port(|p| p % 2 == 0).unwrap();
    assert!(port >= MIN_APP_PORT);
    assert!(port <= MAX_APP_PORT);
    assert_eq!(port % 2, 0);
}

#[test]
fn test_find_free_port_finds_the_only_free_port() {
    for only in [4000u16, 4500, 4999] {
        assert_eq!(find_free_port(|p| p == only), Ok(only));
    }
}

#[test]
fn test_find_free_port_asks_only_for_ports_of_the_range() {
    let asked: RefCell<Vec<u16>> = RefCell::new(Vec::new());
    let r = find_free_port(|p| {
        asked.borrow_mut().push(p);
        false
    });
    assert!(r.is_err());
    assert_eq!(r.unwrap_err().message(), "No free port found in range 4000-4999");
    let asked = asked.into_inner();
    // Fifty random ports, then the range in order.
    assert_eq!(asked.len(), 50 + 1000);
    assert!(asked.iter().all(|p| (4000..=4999).contains(p)));
    let scan: Vec<u16> = (4000..=4999).collect();
    assert_eq!(&asked[50..], &scan[..]);
    // The random ports are not all the same one.
    assert!(asked[..50].iter().any(|p| *p != asked[0]));
}

#[test]
fn test_is_integration_disabled() {
    assert!(is_integration_disabled("0"));
    assert!(is_integration_disabled("skip"));
    assert!(is_integration_disabled("SKIP"));
    assert!(is_integration_disabled("Skip"));
    assert!(!is_integration_disabled(""));
    assert!(!is_integration_disabled("1"));
    assert!(!is_integration_disabled("00"));
    assert!(!is_integration_disabled(" skip"));
    assert!(!is_integration_disabled("false"));
}

#[test]
fn test_interpret_answer() {
    assert_eq!(interpret_answer("n"), StartChoice::Cancel);
    assert_eq!(interpret_answer(" No\n"), StartChoice::Cancel);
    assert_eq!(interpret_answer("s"), StartChoice::Skip);
    assert_eq!(interpret_answer("SKIP"), StartChoice::Skip);
    assert_eq!(interpret_answer(""), StartChoice::Start);
    assert_eq!(interpret_answer("y"), StartChoice::Start);
    assert_eq!(interpret_answer("nope"), StartChoice::Start);
    assert_eq!(interpret_answer("yes please"), StartChoice::Start);
}

#[test]
fn test_can_bind() {
    assert!(can_bind(80, 0));
    assert!(!can_bind(80, 1000));
    assert!(!can_bind(1023, 1));
    assert!(can_bind(1024, 1000));
    assert!(can_bind(1355, 1000));
    assert!(can_bind(1355, 0));
}
