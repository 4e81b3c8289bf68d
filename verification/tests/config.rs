use junction::config::{
    load_config, ndots_error, parse_resolv_conf, search_error, ConfigError, ReadError, SystemConfig,
};
use junction::hostname::Hostname;

/// Labels of letters, digits and hyphens, between dots.
fn hostname(word: &[u8]) -> Result<Hostname, String> {
    let proper = !word.is_empty()
        && word.iter().all(|b| b.is_ascii_alphanumeric() || *b == b'-' || *b == b'.');
    if !proper {
        return Err("not a hostname".to_string());
    }
    match std::str::from_utf8(word) {
        Ok(text) => Ok(Hostname::new(text.to_string())),
        Err(e) => Err(e.to_string()),
    }
}

fn host(name: &str) -> Hostname {
    Hostname::new(name.to_string())
}

#[test]
fn test_resolv_conf_macos() {
    let macos_resolv = b"
#
# macOS Notice
#
# This file is not consulted for DNS hostname resolution, address
# resolution, or the DNS query routing mechanism used by most
# processes on this system.
#
# To view the DNS configuration used by this system, use:
#   scutil --dns
#
# SEE ALSO
#   dns-sd(1), scutil(8)
#
# This file is automatically generated.
#
search localdomain
nameserver 123.456.789.123
";
    assert_eq!(
        SystemConfig {
            ndots: 1,
            search: vec![host("localdomain")],
        },
        parse_resolv_conf("/kube/etc/resolv.conf", macos_resolv, hostname).unwrap()
    );
}

#[test]
fn test_resolv_conf_kube() {
    let kube_resolv = b"
nameserver 192.168.194.138
; another comment
nameserver fd07:b51a:cc66:a:8000::a # after stuff
# a weird inline comment
search default.svc.cluster.local svc.cluster.local cluster.local
options extra:hello ndots:5 not-valid
";

    assert_eq!(
        SystemConfig {
            ndots: 5,
            search: [
                "default.svc.cluster.local",
                "svc.cluster.local",
                "cluster.local",
            ]
            .into_iter()
            .map(host)
            .collect()
        },
        parse_resolv_conf("/kube/etc/resolv.conf", kube_resolv, hostname).unwrap()
    );
}

#[test]
fn test_resolv_conf_invalid_search() {
    let conf = b"
search default.svc$$$cluster.local svc.cluster.local cluster.local
options ndots:5";
    let err = parse_resolv_conf("bad", conf, hostname).unwrap_err();
    assert!(matches!(err, ConfigError::Invalid { line: 1, .. }));
}

#[test]
fn test_resolv_conf_invalid_ndots() {
    let conf = b"
search default.svc.cluster.local svc.cluster.local cluster.local
options ndots:1 ndots:a-potato ndots:3";
    let err = parse_resolv_conf("bad", conf, hostname).unwrap_err();
    assert!(matches!(err, ConfigError::Invalid { line: 2, .. }));
}

fn invalid(path: &str, content: &[u8]) -> (String, usize, String) {
    match parse_resolv_conf(path, content, hostname) {
        Err(ConfigError::Invalid { path, line, message }) => (path, line, message),
        other => panic!("{:?}", other),
    }
}

fn config(ndots: u8, search: &[&str]) -> SystemConfig {
    SystemConfig { ndots, search: search.iter().map(|name| host(name)).collect() }
}

#[test]
fn nothing_asked_gives_the_defaults() {
    assert_eq!(parse_resolv_conf("p", b"", hostname).unwrap(), config(1, &[]));
    assert_eq!(parse_resolv_conf("p", b"\n\n \t\n", hostname).unwrap(), config(1, &[]));
    assert_eq!(
        parse_resolv_conf("p", b"#search a\n;options ndots:9\nnameserver $$$", hostname).unwrap(),
        config(1, &[])
    );
    assert_eq!(
        parse_resolv_conf("p", b"searching $$$\nSEARCH a\noption ndots:x", hostname).unwrap(),
        config(1, &[])
    );
}

#[test]
fn the_last_search_counts() {
    assert_eq!(
        parse_resolv_conf("p", b"search a b\nsearch c", hostname).unwrap(),
        config(1, &["c"])
    );
    assert_eq!(parse_resolv_conf("p", b"search a\nsearch", hostname).unwrap(), config(1, &[]));
}

#[test]
fn the_last_ndots_counts() {
    assert_eq!(
        parse_resolv_conf("p", b"options ndots:2 ndots:3\noptions rotate\n", hostname).unwrap(),
        config(3, &[])
    );
    assert_eq!(
        parse_resolv_conf("p", b"options ndots:2\noptions ndots:+7", hostname).unwrap(),
        config(7, &[])
    );
    assert_eq!(parse_resolv_conf("p", b"options", hostname).unwrap(), config(1, &[]));
    assert_eq!(
        parse_resolv_conf("p", b"options xndots:4 ndots=4", hostname).unwrap(),
        config(1, &[])
    );
}

#[test]
fn whitespace_around_a_line_does_not_count() {
    assert_eq!(
        parse_resolv_conf("p", b" \t\x0csearch\ta\rb \r\n\toptions ndots:4\r\n", hostname).unwrap(),
        config(4, &["a", "b"])
    );
}

#[test]
fn two_spaces_hold_an_empty_word() {
    let (_, line, message) = invalid("p", b"search a  b");
    assert_eq!(line, 0);
    assert_eq!(message, "search path contains invalid hostname: not a hostname");
    assert_eq!(parse_resolv_conf("p", b"options  ndots:4", hostname).unwrap(), config(4, &[]));
}

#[test]
fn an_ignored_line_shifts_the_count_of_lines() {
    assert_eq!(invalid("p", b"options ndots:x").1, 0);
    assert_eq!(invalid("p", b"# x\noptions ndots:x\n# y").1, 1);
}

#[test]
fn the_first_error_decides() {
    assert_eq!(
        invalid("/etc/resolv.conf", b"options ndots:256\nsearch $"),
        ("/etc/resolv.conf".to_string(), 0, "invalid ndots: '256'".to_string())
    );
    assert_eq!(invalid("p", b"search a $ b\noptions ndots:x").1, 0);
    assert_eq!(invalid("p", b"options ndots: ndots:1").2, "invalid ndots: ''");
}

#[test]
fn a_message_shows_what_is_no_text() {
    assert_eq!(invalid("p", b"options ndots:\xff1").2, "invalid ndots: '\u{fffd}1'");
    assert_eq!(invalid("p", b"options ndots:\xc3\xa9").2, "invalid ndots: '\u{e9}'");
    assert_eq!(ndots_error("x"), "invalid ndots: 'x'");
    assert_eq!(search_error("x"), "search path contains invalid hostname: x");
}

#[test]
fn load_config_takes_what_was_read() {
    assert_eq!(
        load_config("p", Ok(b"options ndots:3".to_vec()), hostname).unwrap(),
        config(3, &[])
    );
    let error = load_config("p", Err(ReadError::NotFound), hostname).unwrap_err();
    assert!(matches!(&error, ConfigError::NotFound { path } if path == "p"));
    assert_eq!(error.to_text(), "config not found: p");
    let denied = ReadError::Other { message: "permission denied".to_string() };
    let error = load_config("p", Err(denied), hostname).unwrap_err();
    assert!(matches!(&error, ConfigError::Other { message } if message == "permission denied"));
    assert_eq!(error.to_text(), "permission denied");
    let error = load_config("p", Ok(b"\noptions ndots:-1".to_vec()), hostname).unwrap_err();
    assert_eq!(error.to_text(), "p:1: invalid ndots: '-1'");
}

#[test]
fn an_ignored_line_does_not_matter_wherever_it_stands() {
    let plain = config(3, &["a"]);
    for content in [
        "search a\noptions ndots:3",
        "# x\nsearch a\noptions ndots:3",
        "search a\nnameserver 1.1.1.1\noptions ndots:3",
        "search a\noptions ndots:3\n; y",
    ] {
        assert_eq!(parse_resolv_conf("p", content.as_bytes(), hostname).unwrap(), plain);
    }
    assert_eq!(invalid("p", b"search a\n# x\noptions ndots:x\nsearch $").1, 2);
}

#[test]
fn the_last_ndots_of_any_line_counts() {
    let content = b"options ndots:2 ndots:5\nsearch a\noptions ndots:4\noptions rotate\nsearch b";
    assert_eq!(parse_resolv_conf("p", content, hostname).unwrap(), config(4, &["b"]));
}
