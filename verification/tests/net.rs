use std::io::{self, Write};
use std::time::Duration;

use tileset_downloader::error::{format_chain, Cause, Error, TransportError};
use tileset_downloader::local_path::LocalPath;
use tileset_downloader::net::{
    backoff, backoff_at, check_status, copy_outcome, is_transient, parse_headers, time_limit,
    ClientConfig, Retries, WriteRecord, DEFAULT_USER_AGENT,
};
use tileset_downloader::web_url::Url;

fn transport() -> TransportError {
    TransportError {
        timeout: false,
        connect: false,
        body: false,
        decode: false,
        request: false,
        cause: Cause {
            messages: vec!["error sending request".to_owned(), "refused".to_owned()],
        },
    }
}

fn request(source: TransportError) -> Error {
    Error::Request {
        url: "https://example.com/x".to_owned(),
        source,
    }
}

#[test]
fn parses_headers() {
    let headers = parse_headers(&vec!["Authorization: Bearer abc".to_owned()]).expect("parses");
    let found = headers
        .iter()
        .find(|field| field.name == "authorization")
        .expect("is there");
    assert_eq!(found.value, b"Bearer abc");
}

#[test]
fn rejects_malformed_headers() {
    let err = parse_headers(&vec!["nope".to_owned()]).expect_err("must reject");
    assert!(matches!(err, Error::InvalidHeader { .. }));
}

#[test]
fn classifies_transient_status_codes() {
    for status in [408u16, 425, 429, 500, 503, 599] {
        assert!(
            is_transient(&Error::HttpStatus {
                url: "https://example.com/x".to_owned(),
                status
            }),
            "HTTP {status} should be retried"
        );
    }
    for status in [400u16, 401, 403, 404, 410, 422] {
        assert!(
            !is_transient(&Error::HttpStatus {
                url: "https://example.com/x".to_owned(),
                status
            }),
            "HTTP {status} should not be retried"
        );
    }
}

#[test]
fn never_retries_local_errors() {
    assert!(!is_transient(&Error::UnsafeUri {
        uri: "../x".to_owned()
    }));
    assert!(!is_transient(&Error::MissingRoot {
        url: "https://example.com/tileset.json".to_owned()
    }));
}

#[test]
fn backoff_grows_then_caps() {
    let first = backoff(0);
    let second = backoff(1);
    assert!(second > first, "backoff should grow");
    assert!(backoff(30) <= 8_000 + 250, "backoff should cap");
}

#[test]
fn headers_keep_their_order_and_bytes() {
    let raw = vec![
        "A: 1".to_owned(),
        "  b\t:\u{a0} two : parts ".to_owned(),
        "A: 2".to_owned(),
        "X-Empty:".to_owned(),
        "X-Text: é".to_owned(),
    ];
    let headers = parse_headers(&raw).expect("parses");
    let fields: Vec<(&str, &[u8])> = headers
        .iter()
        .map(|field| (field.name.as_str(), field.value.as_slice()))
        .collect();
    assert_eq!(
        fields,
        vec![
            ("a", b"1".as_slice()),
            ("b", b"two : parts".as_slice()),
            ("a", b"2".as_slice()),
            ("x-empty", b"".as_slice()),
            ("x-text", "é".as_bytes()),
        ]
    );
    assert!(parse_headers(&vec![]).expect("parses").is_empty());
}

#[test]
fn a_rejected_header_says_why() {
    for (header, reason) in [
        ("nope", "expected `Name: Value`"),
        ("a b: c", "invalid HTTP header name"),
        (": c", "invalid HTTP header name"),
        ("a: b\u{7}c", "failed to parse header value"),
    ] {
        let raw = vec!["Fine: yes".to_owned(), header.to_owned()];
        match parse_headers(&raw) {
            Err(error) => assert_eq!(
                error.message(),
                format!("invalid header `{header}`: {reason}")
            ),
            Ok(_) => panic!("{header} must be rejected"),
        }
    }
}

#[test]
fn dropped_connections_are_retried() {
    assert!(!is_transient(&request(transport())));
    for set in [
        |source: &mut TransportError| source.timeout = true,
        |source: &mut TransportError| source.connect = true,
        |source: &mut TransportError| source.body = true,
        |source: &mut TransportError| source.decode = true,
        |source: &mut TransportError| source.request = true,
    ] {
        let mut source = transport();
        set(&mut source);
        assert!(is_transient(&request(source)));
    }
}

#[test]
fn only_two_hundreds_are_successes() {
    let url = Url::parse("https://example.com/x").expect("parses");
    for status in [200u16, 204, 299] {
        assert!(check_status(&url, status).is_ok());
    }
    for status in [100u16, 199, 300, 304, 404, 500] {
        match check_status(&url, status) {
            Err(error) => assert_eq!(
                error.message(),
                format!("server replied HTTP {status} for `https://example.com/x`")
            ),
            Ok(()) => panic!("HTTP {status} is no success"),
        }
    }
}

#[test]
fn a_disk_failure_is_not_a_request_failure() {
    let url = Url::parse("https://example.com/x").expect("parses");
    let path = LocalPath::from_text("out/x.part");
    assert!(matches!(copy_outcome(Ok(12), None, &url, &path), Ok(12)));
    let mut source = transport();
    source.decode = true;
    let disk = copy_outcome(
        Err(source.clone()),
        Some(Cause::single("no space left on device")),
        &url,
        &path,
    )
    .expect_err("the disk is full");
    assert_eq!(
        format_chain(&disk),
        "failed to write `out/x.part`: no space left on device"
    );
    assert!(!is_transient(&disk));
    let network = copy_outcome(Err(source), None, &url, &path).expect_err("the body is broken");
    assert_eq!(
        format_chain(&network),
        "request to `https://example.com/x` failed: error sending request: refused"
    );
    assert!(is_transient(&network));
}

#[test]
fn the_first_write_failure_counts() {
    let mut record = WriteRecord::new();
    record.note(Cause::single("no space left on device"));
    record.note(Cause::single("broken pipe"));
    let failure = record.into_failure().expect("was noted");
    assert_eq!(failure.messages, vec!["no space left on device"]);
    assert!(WriteRecord::new().into_failure().is_none());
}

#[test]
fn delays_double_up_to_eight_seconds() {
    for (attempt, base) in [
        (0u32, 250u64),
        (1, 500),
        (2, 1000),
        (3, 2000),
        (4, 4000),
        (5, 8000),
        (6, 8000),
        (u32::MAX, 8000),
    ] {
        assert_eq!(backoff_at(attempt, 0), base);
        assert_eq!(backoff_at(attempt, 249), base + 249);
        assert_eq!(backoff_at(attempt, 250), base);
        assert_eq!(backoff_at(attempt, 999), base + 249);
    }
}

#[test]
fn retries_run_out() {
    let unavailable = Error::HttpStatus {
        url: "https://example.com/x".to_owned(),
        status: 503,
    };
    let missing = Error::HttpStatus {
        url: "https://example.com/x".to_owned(),
        status: 404,
    };
    let mut retries = Retries::new(2);
    assert!(retries.after_failure(&missing).is_none());
    let first = retries.after_failure(&unavailable).expect("is retried");
    assert!((250..500).contains(&first));
    let second = retries.after_failure(&unavailable).expect("is retried");
    assert!((500..750).contains(&second));
    assert!(retries.after_failure(&unavailable).is_none());
    assert_eq!(
        retries,
        Retries {
            allowed: 2,
            used: 2
        }
    );
    assert!(Retries::new(0).after_failure(&unavailable).is_none());
}

#[test]
fn a_zero_limit_is_no_limit() {
    assert_eq!(time_limit(Duration::ZERO), None);
    for millis in [1u64, 500, 60_000] {
        let limit = Duration::from_millis(millis);
        assert_eq!(time_limit(limit), Some(limit));
    }
    let config = ClientConfig::default();
    assert_eq!(config.user_agent, DEFAULT_USER_AGENT);
    assert_eq!(config.timeout, Duration::from_secs(60));
    assert_eq!(config.connect_timeout, Duration::from_secs(30));
    assert_eq!(config.retries, 3);
    assert!(config.headers.is_empty());
    assert_eq!(config.max_idle_connections_per_host, 32);
    assert_eq!(DEFAULT_USER_AGENT, "tileset-downloader/0.1.0");
}

/// A `Write` that always fails, so the disk-failure path can be exercised
/// without touching a filesystem.
struct FailingWriter;

impl Write for FailingWriter {
    fn write(&mut self, _buf: &[u8]) -> io::Result<usize> {
        Err(io::Error::new(
            io::ErrorKind::PermissionDenied,
            "no space left on device",
        ))
    }

    fn flush(&mut self) -> io::Result<()> {
        Ok(())
    }
}

#[test]
fn recording_writer_remembers_a_disk_failure() {
    let mut record = WriteRecord::new();
    let error = FailingWriter
        .write(b"anything")
        .expect_err("the placeholder must stop the copy");
    record.note(Cause::single(&error.to_string()));

    let kept = record.into_failure().expect("the real error is kept");
    assert_eq!(error.kind(), io::ErrorKind::PermissionDenied);
    assert_eq!(kept.messages, vec!["no space left on device"]);
    let url = Url::parse("https://example.com/x").expect("parses");
    let path = LocalPath::from_text("out/x.part");
    let outcome = copy_outcome(Err(transport()), Some(kept), &url, &path);
    assert!(matches!(outcome, Err(Error::Io { action: "write", .. })));
}
