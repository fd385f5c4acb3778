use tileset_downloader::error::{format_chain, Cause, Error, TransportError};
use tileset_downloader::local_path::LocalPath;

fn all() -> Vec<(Error, &'static str)> {
    let u = || "https://e.com/x".to_owned();
    vec![
        (
            Error::Url {
                input: "x y".to_owned(),
                source: Cause::single("relative URL without a base"),
            },
            "invalid URL `x y`",
        ),
        (
            Error::UnsupportedScheme {
                scheme: "ftp".to_owned(),
            },
            "unsupported URL scheme `ftp` (expected `http` or `https`)",
        ),
        (
            Error::ClientBuild {
                source: Cause::single("builder error"),
            },
            "failed to build the HTTP client",
        ),
        (
            Error::InvalidHeader {
                header: "h".to_owned(),
                reason: "r".to_owned(),
            },
            "invalid header `h`: r",
        ),
        (
            Error::Request {
                url: u(),
                source: TransportError {
                    timeout: true,
                    connect: false,
                    body: false,
                    decode: false,
                    request: true,
                    cause: Cause::single("operation timed out"),
                },
            },
            "request to `https://e.com/x` failed",
        ),
        (
            Error::HttpStatus {
                url: u(),
                status: 503,
            },
            "server replied HTTP 503 for `https://e.com/x`",
        ),
        (
            Error::Json {
                url: u(),
                source: Cause::single("expected value at line 1 column 1"),
            },
            "could not parse JSON from `https://e.com/x`",
        ),
        (
            Error::MissingRoot { url: u() },
            "tileset `https://e.com/x` has no `root` tile (empty or malformed tileset)",
        ),
        (
            Error::UnsafeUri {
                uri: "../x".to_owned(),
            },
            "refusing to write `../x`: it does not resolve to a safe path inside the output directory",
        ),
        (
            Error::PathCollision {
                path: LocalPath::from_text("a/b"),
                first: "1".to_owned(),
                second: "2".to_owned(),
            },
            "`1` and `2` both map to `a/b`, so the download would be ambiguous",
        ),
        (
            Error::UnsupportedSubdivision {
                url: u(),
                scheme: "HEXTREE".to_owned(),
            },
            "implicit tiling in `https://e.com/x` uses unsupported subdivision scheme `HEXTREE`",
        ),
        (
            Error::Availability {
                url: u(),
                detail: "d".to_owned(),
            },
            "malformed implicit tiling data in `https://e.com/x`: d",
        ),
        (
            Error::Implicit {
                url: u(),
                detail: "d".to_owned(),
            },
            "implicit tiling error in `https://e.com/x`: d",
        ),
        (
            Error::TooManyItems { limit: 5_000_000 },
            "refusing to continue: more than 5000000 files were discovered (the tileset is either malformed or genuinely enormous)",
        ),
        (
            Error::ThreadPool {
                threads: 8,
                source: Cause::single("no threads"),
            },
            "failed to create a 8-thread worker pool",
        ),
        (
            Error::PartialFailure {
                failed: 2,
                total: 10,
            },
            "2 of 10 files failed to download; see the errors above",
        ),
        (
            Error::io(
                "create directory",
                LocalPath::from_text("out"),
                Cause::single("denied"),
            ),
            "failed to create directory `out`",
        ),
    ]
}

#[test]
fn every_error_has_its_message() {
    for (error, message) in all() {
        assert_eq!(error.message(), message);
    }
}

#[test]
fn a_chain_ends_with_the_diagnostics() {
    let causes = [
        Some("relative URL without a base"),
        None,
        Some("builder error"),
        None,
        Some("operation timed out"),
        None,
        Some("expected value at line 1 column 1"),
        None,
        None,
        None,
        None,
        None,
        None,
        None,
        Some("no threads"),
        None,
        Some("denied"),
    ];
    for ((error, message), cause) in all().into_iter().zip(causes) {
        let expected = match cause {
            Some(cause) => format!("{message}: {cause}"),
            None => message.to_owned(),
        };
        assert_eq!(format_chain(&error), expected);
    }
}

#[test]
fn a_chain_holds_every_cause_in_order() {
    let error = Error::ClientBuild {
        source: Cause {
            messages: vec!["a".to_owned(), "b".to_owned(), "c".to_owned()],
        },
    };
    assert_eq!(
        format_chain(&error),
        "failed to build the HTTP client: a: b: c"
    );
}
