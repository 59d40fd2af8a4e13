use benchmark_games::swarm::{decode_chunked, read_response};
use benchmark_games::swarm::{plan_request, sidecar_address, sidecar_urls, BodySource, SwarmRequest};

#[test]
fn decodes_chunked_json() {
    assert_eq!(
        decode_chunked(b"4\r\n{\"ok\r\n7\r\n\":true}\r\n0\r\n\r\n").unwrap(),
        br#"{"ok":true}"#
    );
}

#[test]
fn rejects_truncated_chunk() {
    assert!(decode_chunked(b"4\r\nabc\r\n").is_err());
}

#[test]
fn chunk_sizes_are_hexadecimal_with_extensions() {
    assert_eq!(
        decode_chunked(b"A;name=value\r\n0123456789\r\n+1 \r\nx\r\n0\r\n").unwrap(),
        b"0123456789x"
    );
}

#[test]
fn chunk_errors_carry_their_reason() {
    assert_eq!(decode_chunked(b"4").unwrap_err(), "invalid chunk size");
    assert_eq!(decode_chunked(b"4\r\nabc\r\n").unwrap_err(), "truncated HTTP chunk");
    assert_eq!(
        decode_chunked(b"zz\r\n").unwrap_err(),
        "invalid digit found in string"
    );
    assert_eq!(
        decode_chunked(b" \r\n").unwrap_err(),
        "cannot parse integer from empty string"
    );
    assert_eq!(
        decode_chunked(b"+\r\n").unwrap_err(),
        "invalid digit found in string"
    );
    assert_eq!(
        decode_chunked(b"1ffffffffffffffffffff\r\n").unwrap_err(),
        "number too large to fit in target type"
    );
    assert!(decode_chunked(b"\xff\r\n").is_err());
}

#[test]
fn response_bodies_are_split_from_headers() {
    assert_eq!(
        read_response(b"HTTP/1.1 200 OK\r\nContent-Length: 2\r\n\r\nhi").unwrap(),
        b"hi"
    );
    assert_eq!(
        read_response(
            b"HTTP/1.1 200 OK\r\nTransfer-Encoding: Chunked\r\nConnection: close\r\n\r\n2\r\nhi\r\n0\r\n\r\n"
        )
        .unwrap(),
        b"hi"
    );
    assert_eq!(
        read_response(b"HTTP/1.1 200 OK\r\nTransfer-Encoding: chunked\r\n\r\n2\r\nhi\r\n0\r\n\r\n")
            .unwrap(),
        b"2\r\nhi\r\n0\r\n\r\n"
    );
    assert_eq!(
        read_response(b"HTTP/1.1 200 OK\r\n").unwrap_err(),
        "invalid HTTP response"
    );
}

fn args(values: &[&str]) -> Vec<String> {
    values.iter().map(|v| v.to_string()).collect()
}

#[test]
fn command_lines_become_requests() {
    assert_eq!(
        plan_request(&args(&["status"])),
        Ok(SwarmRequest { method: "GET", path: "/v1/status".to_owned(), body: BodySource::Empty })
    );
    assert_eq!(
        plan_request(&args(&["run", "-"])),
        Ok(SwarmRequest { method: "POST", path: "/v1/run".to_owned(), body: BodySource::Stdin })
    );
    assert_eq!(
        plan_request(&args(&["run", "plan.lua"])),
        Ok(SwarmRequest { method: "POST", path: "/v1/run".to_owned(), body: BodySource::File("plan.lua".to_owned()) })
    );
    assert_eq!(
        plan_request(&args(&["advance", "120"])),
        Ok(SwarmRequest { method: "POST", path: "/v1/advance/120".to_owned(), body: BodySource::Empty })
    );
    assert_eq!(
        plan_request(&args(&["submit"])),
        Ok(SwarmRequest { method: "GET", path: "/v1/submit".to_owned(), body: BodySource::Empty })
    );
    assert_eq!(plan_request(&args(&[])).unwrap_err(), "usage: swarm <status|run|advance|submit>");
    assert_eq!(plan_request(&args(&["advance", "soon"])).unwrap_err(), "ticks must be an integer");
    assert_eq!(plan_request(&args(&["status", "now"])).unwrap_err(), "invalid swarm command or arguments");
    assert_eq!(plan_request(&args(&["fly"])).unwrap_err(), "invalid swarm command or arguments");
}

#[test]
fn sidecars_are_configured_or_defaulted() {
    assert_eq!(sidecar_urls(Some("http://farm:9000//")), vec!["http://farm:9000".to_owned()]);
    assert_eq!(
        sidecar_urls(None),
        vec!["http://127.0.0.1:3720".to_owned(), "http://game:3720".to_owned()]
    );
    assert_eq!(sidecar_address("http://game:3720"), Ok(("game".to_owned(), 3720)));
    assert_eq!(sidecar_address("http://game"), Ok(("game".to_owned(), 80)));
    assert_eq!(sidecar_address("https://game").unwrap_err(), "only http:// sidecars are supported");
    assert_eq!(sidecar_address("http://game:99999").unwrap_err(), "number too large to fit in target type");
    assert_eq!(sidecar_address("http://game:").unwrap_err(), "cannot parse integer from empty string");
}
