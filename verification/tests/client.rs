use junction::client::{default_client, http_reply, new_client, resolve_http, BuildError};

/// What stands behind `://`.
fn parse_url(text: &str) -> Option<String> {
    text.split_once("://").map(|(_, rest)| rest.to_string())
}

fn request(url: Option<&[u8]>, method: Option<&[u8]>) -> Result<(String, String), u8> {
    let junction = default_client();
    resolve_http(Some(&junction), url, method, (), parse_url).map(|r| (r.url, r.method))
}

#[test]
fn the_default_client_has_fixed_settings() {
    let junction = default_client();
    assert_eq!(junction.client.ads_address, "0.0.0.0");
    assert_eq!(junction.client.node_name, "wow");
    assert_eq!(junction.client.cluster_name, "clustermesurprised");
}

#[test]
fn a_request_in_order_is_taken() {
    assert_eq!(
        request(Some(b"http://a.com/"), Some(b"GET")),
        Ok(("a.com/".to_string(), "GET".to_string()))
    );
    assert_eq!(
        request(Some(b"http://a.com/"), Some(b"a-Method.of~my|own")),
        Ok(("a.com/".to_string(), "a-Method.of~my|own".to_string()))
    );
}

#[test]
fn a_request_without_a_client_is_refused() {
    let refused = resolve_http(None, Some(b"http://a.com/"), Some(b"GET"), (), parse_url);
    assert_eq!(refused.map(|r| r.url), Err(1));
    let refused = resolve_http(None, None, None, (), parse_url);
    assert_eq!(refused.map(|r| r.url), Err(1));
}

#[test]
fn a_request_without_a_proper_url_is_refused() {
    assert_eq!(request(None, Some(b"GET")), Err(2));
    assert_eq!(request(None, None), Err(2));
    assert_eq!(request(Some(b"http://\xff"), Some(b"GET")), Err(2));
    assert_eq!(request(Some(b"a.com"), Some(b"GET")), Err(2));
    assert_eq!(request(Some(b"a.com"), None), Err(2));
}

#[test]
fn a_request_without_a_proper_method_is_refused() {
    let url: Option<&[u8]> = Some(b"http://a.com/");
    assert_eq!(request(url, None), Err(3));
    assert_eq!(request(url, Some(b"")), Err(3));
    assert_eq!(request(url, Some(b"GET\xff")), Err(3));
    assert_eq!(request(url, Some(b"GET IT")), Err(3));
    assert_eq!(request(url, Some(b"G\xc3\xa9T")), Err(3));
    assert_eq!(request(url, Some(b"a-method-that-is-much-too-long-for-a-short-one,")), Err(3));
}

#[test]
fn headers_do_not_matter() {
    let junction = default_client();
    let proper: Option<&[u8]> = Some(b"http://a.com/");
    let cases: [(Option<&[u8]>, Option<&[u8]>); 4] = [
        (proper, Some(b"GET")),
        (proper, Some(b"G T")),
        (Some(b"a.com"), Some(b"GET")),
        (None, None),
    ];
    for (url, method) in cases {
        let none = resolve_http(Some(&junction), url, method, None::<&str>, parse_url);
        let some = resolve_http(Some(&junction), url, method, Some("x: y"), parse_url);
        let unread = resolve_http(Some(&junction), url, method, vec![0u8, 255u8], parse_url);
        for request in [&none, &some, &unread] {
            if let Ok(request) = request {
                assert!(request.headers.is_empty());
            }
        }
        let none = none.map(|r| (r.url, r.method));
        assert_eq!(some.map(|r| (r.url, r.method)), none);
        assert_eq!(unread.map(|r| (r.url, r.method)), none);
    }
}

#[test]
fn every_ascii_character_is_in_a_method_or_not() {
    let proper = "!#$%&'*+-.^_`|~0123456789ABCDEFGHIJKLMNOPQRSTUVWXYZabcdefghijklmnopqrstuvwxyz";
    for b in 0..128u8 {
        let method = [b'X', b];
        let taken = request(Some(b"http://a.com/"), Some(&method)).is_ok();
        assert_eq!(taken, proper.contains(b as char), "{}", b);
    }
}

#[test]
fn a_client_that_connects_is_handed_on() {
    assert_eq!(new_client(Ok(7)), Ok(7));
}

#[test]
fn a_client_that_does_not_connect_says_why() {
    let error = BuildError { message: "transport error".to_string(), cause: None };
    assert_eq!(
        new_client::<()>(Err(error)),
        Err("ads connection failed: transport error".to_string())
    );
    let error = BuildError {
        message: "transport error".to_string(),
        cause: Some("refused".to_string()),
    };
    assert_eq!(
        new_client::<()>(Err(error)),
        Err("ads connection failed: transport error: refused".to_string())
    );
}

#[test]
fn a_reply_holds_an_address_or_an_error() {
    let reply = http_reply(Ok(("10.0.0.1".to_string(), 8080)));
    assert_eq!((reply.code, reply.message.as_str()), (0, "10.0.0.1:8080"));
    let reply = http_reply(Ok(("::1".to_string(), 0)));
    assert_eq!((reply.code, reply.message.as_str()), (0, "::1:0"));
    let reply = http_reply(Err("NoRouteMatched".to_string()));
    assert_eq!((reply.code, reply.message.as_str()), (1, "NoRouteMatched"));
}
