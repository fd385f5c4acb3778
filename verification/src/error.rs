//! The error type shared by the whole crate.
//!
//! Errors are *typed* rather than stringly, because the downloader needs to
//! distinguish "retry me" failures (timeouts, HTTP 5xx, HTTP 429) from "never
//! retry me" failures (HTTP 404, a path-traversal URI, malformed JSON). A
//! diagnostic of another layer is kept as the messages of its chain of causes.

use vstd::prelude::*;

use crate::local_path::LocalPath;
use crate::text;

verus! {

/// The diagnostics behind an error, outermost first.
#[derive(Debug, Clone)]
pub struct Cause {
    /// One message per cause.
    pub messages: Vec<String>,
}

impl View for Cause {
    type V = Seq<Seq<char>>;

    open spec fn view(&self) -> Seq<Seq<char>> {
        text::texts(self.messages@)
    }
}

impl Cause {
    /// A cause without causes of its own.
    pub fn single(message: &str) -> (cause: Cause)
        ensures
            cause@ == seq![message@],
    {
        let mut messages: Vec<String> = Vec::new();
        messages.push(message.to_owned());
        let cause = Cause { messages };
        assert(cause@ =~= seq![message@]);
        cause
    }
}

/// How the transport failed, and its diagnostics.
#[derive(Debug, Clone)]
pub struct TransportError {
    /// The request timed out.
    pub timeout: bool,
    /// The connection could not be made.
    pub connect: bool,
    /// The body broke off.
    pub body: bool,
    /// The body could not be decoded.
    pub decode: bool,
    /// The request could not be sent.
    pub request: bool,
    /// The messages.
    pub cause: Cause,
}

/// What a [`TransportError`] stands for.
#[verifier::ext_equal]
pub struct TransportModel {
    pub timeout: bool,
    pub connect: bool,
    pub body: bool,
    pub decode: bool,
    pub request: bool,
    pub cause: Seq<Seq<char>>,
}

impl View for TransportError {
    type V = TransportModel;

    open spec fn view(&self) -> TransportModel {
        TransportModel {
            timeout: self.timeout,
            connect: self.connect,
            body: self.body,
            decode: self.decode,
            request: self.request,
            cause: self.cause@,
        }
    }
}

/// Every way discovery or downloading can fail.
#[derive(Debug)]
#[non_exhaustive]
pub enum Error {
    /// The user supplied a URL that could not be parsed, or a tileset referenced a
    /// URI that is not a legal URL.
    Url {
        /// The offending input, kept verbatim so the message is actionable.
        input: String,
        /// Parser diagnostic.
        source: Cause,
    },
    /// The entry URL used a scheme this tool cannot fetch.
    UnsupportedScheme {
        /// The scheme that was found.
        scheme: String,
    },
    /// The underlying HTTP client could not be constructed.
    ClientBuild {
        /// Reason the client could not be built.
        source: Cause,
    },
    /// A `--header` value was not a valid HTTP header.
    InvalidHeader {
        /// The header the user passed on the command line.
        header: String,
        /// Why it was rejected.
        reason: String,
    },
    /// The transport itself failed: DNS, TLS, connect, timeout, body, decode.
    Request {
        /// URL that was being fetched.
        url: String,
        /// Transport diagnostic, used to decide whether a retry is worthwhile.
        source: TransportError,
    },
    /// The server answered, but not with a success status.
    HttpStatus {
        /// URL that was being fetched.
        url: String,
        /// The status code, stored as a number so it can be matched on.
        status: u16,
    },
    /// A fetched document was not valid JSON.
    Json {
        /// URL the JSON came from.
        url: String,
        /// Parser diagnostic, including line and column.
        source: Cause,
    },
    /// A tileset document parsed as JSON but had no `root` tile.
    MissingRoot {
        /// URL of the offending tileset.
        url: String,
    },
    /// A relative URI tried to escape the output directory, or was otherwise
    /// not representable as a plain relative path.
    UnsafeUri {
        /// The URI or path that was rejected.
        uri: String,
    },
    /// Two different remote URLs mapped to the same local file.
    PathCollision {
        /// Local path that collided.
        path: LocalPath,
        /// URL that claimed the path first.
        first: String,
        /// URL that collided with it.
        second: String,
    },
    /// The implicit tiling extension used a subdivision scheme we do not know.
    UnsupportedSubdivision {
        /// URL of the tileset that declared the extension.
        url: String,
        /// The scheme that was declared.
        scheme: String,
    },
    /// An availability bitstream or subtree document was structurally invalid.
    Availability {
        /// URL of the subtree or tileset that failed to parse.
        url: String,
        /// Human readable explanation.
        detail: String,
    },
    /// Any other implicit-tiling specific failure.
    Implicit {
        /// URL of the tileset that declared the extension.
        url: String,
        /// Human readable explanation.
        detail: String,
    },
    /// A tileset asked for an implausible number of files.
    TooManyItems {
        /// The cap that was hit.
        limit: usize,
    },
    /// The worker pool could not be created.
    ThreadPool {
        /// Thread count that was requested.
        threads: usize,
        /// The pool's diagnostic.
        source: Cause,
    },
    /// The run finished, but some files could not be downloaded.
    PartialFailure {
        /// How many files failed.
        failed: usize,
        /// How many files were considered.
        total: usize,
    },
    /// A file could not be read, created, written, or renamed.
    Io {
        /// What we were trying to do, e.g. `"create directory"`.
        action: &'static str,
        /// Path involved.
        path: LocalPath,
        /// OS diagnostic.
        source: Cause,
    },
}

/// Convenience alias used throughout the crate.
pub type Result<T, E = Error> = core::result::Result<T, E>;

/// What an [`Error`] stands for: the same cases, over texts.
#[verifier::ext_equal]
pub enum ErrorModel {
    Url { input: Seq<char>, source: Seq<Seq<char>> },
    UnsupportedScheme { scheme: Seq<char> },
    ClientBuild { source: Seq<Seq<char>> },
    InvalidHeader { header: Seq<char>, reason: Seq<char> },
    Request { url: Seq<char>, source: TransportModel },
    HttpStatus { url: Seq<char>, status: u16 },
    Json { url: Seq<char>, source: Seq<Seq<char>> },
    MissingRoot { url: Seq<char> },
    UnsafeUri { uri: Seq<char> },
    PathCollision { path: Seq<char>, first: Seq<char>, second: Seq<char> },
    UnsupportedSubdivision { url: Seq<char>, scheme: Seq<char> },
    Availability { url: Seq<char>, detail: Seq<char> },
    Implicit { url: Seq<char>, detail: Seq<char> },
    TooManyItems { limit: usize },
    ThreadPool { threads: usize, source: Seq<Seq<char>> },
    PartialFailure { failed: usize, total: usize },
    Io { action: Seq<char>, path: Seq<char>, source: Seq<Seq<char>> },
}

impl View for Error {
    type V = ErrorModel;

    open spec fn view(&self) -> ErrorModel {
        match self {
            Error::Url { input, source } => ErrorModel::Url { input: input@, source: source@ },
            Error::UnsupportedScheme { scheme } => ErrorModel::UnsupportedScheme {
                scheme: scheme@,
            },
            Error::ClientBuild { source } => ErrorModel::ClientBuild { source: source@ },
            Error::InvalidHeader { header, reason } => ErrorModel::InvalidHeader {
                header: header@,
                reason: reason@,
            },
            Error::Request { url, source } => ErrorModel::Request { url: url@, source: source@ },
            Error::HttpStatus { url, status } => ErrorModel::HttpStatus {
                url: url@,
                status: *status,
            },
            Error::Json { url, source } => ErrorModel::Json { url: url@, source: source@ },
            Error::MissingRoot { url } => ErrorModel::MissingRoot { url: url@ },
            Error::UnsafeUri { uri } => ErrorModel::UnsafeUri { uri: uri@ },
            Error::PathCollision { path, first, second } => ErrorModel::PathCollision {
                path: path@,
                first: first@,
                second: second@,
            },
            Error::UnsupportedSubdivision { url, scheme } => ErrorModel::UnsupportedSubdivision {
                url: url@,
                scheme: scheme@,
            },
            Error::Availability { url, detail } => ErrorModel::Availability {
                url: url@,
                detail: detail@,
            },
            Error::Implicit { url, detail } => ErrorModel::Implicit {
                url: url@,
                detail: detail@,
            },
            Error::TooManyItems { limit } => ErrorModel::TooManyItems { limit: *limit },
            Error::ThreadPool { threads, source } => ErrorModel::ThreadPool {
                threads: *threads,
                source: source@,
            },
            Error::PartialFailure { failed, total } => ErrorModel::PartialFailure {
                failed: *failed,
                total: *total,
            },
            Error::Io { action, path, source } => ErrorModel::Io {
                action: action@,
                path: path@,
                source: source@,
            },
        }
    }
}

/// What the result of a fallible function stands for.
pub open spec fn outcome<T: View>(result: Result<T>) -> core::result::Result<T::V, ErrorModel> {
    match result {
        Ok(value) => Ok(value@),
        Err(error) => Err(error@),
    }
}

/// What a fallible function without a value has done.
pub open spec fn done(result: Result<()>) -> core::result::Result<(), ErrorModel> {
    match result {
        Ok(()) => Ok(()),
        Err(error) => Err(error@),
    }
}

/// The one-line message of an error, without its causes.
pub open spec fn message_of(error: ErrorModel) -> Seq<char> {
    match error {
        ErrorModel::Url { input, .. } => "invalid URL `"@ + input + "`"@,
        ErrorModel::UnsupportedScheme { scheme } => "unsupported URL scheme `"@ + scheme
            + "` (expected `http` or `https`)"@,
        ErrorModel::ClientBuild { .. } => "failed to build the HTTP client"@,
        ErrorModel::InvalidHeader { header, reason } => "invalid header `"@ + header + "`: "@
            + reason,
        ErrorModel::Request { url, .. } => "request to `"@ + url + "` failed"@,
        ErrorModel::HttpStatus { url, status } => "server replied HTTP "@ + text::decimal(
            status as nat,
        ) + " for `"@ + url + "`"@,
        ErrorModel::Json { url, .. } => "could not parse JSON from `"@ + url + "`"@,
        ErrorModel::MissingRoot { url } => "tileset `"@ + url
            + "` has no `root` tile (empty or malformed tileset)"@,
        ErrorModel::UnsafeUri { uri } => "refusing to write `"@ + uri
            + "`: it does not resolve to a safe path inside the output directory"@,
        ErrorModel::PathCollision { path, first, second } => "`"@ + first + "` and `"@ + second
            + "` both map to `"@ + path + "`, so the download would be ambiguous"@,
        ErrorModel::UnsupportedSubdivision { url, scheme } => "implicit tiling in `"@ + url
            + "` uses unsupported subdivision scheme `"@ + scheme + "`"@,
        ErrorModel::Availability { url, detail } => "malformed implicit tiling data in `"@ + url
            + "`: "@ + detail,
        ErrorModel::Implicit { url, detail } => "implicit tiling error in `"@ + url + "`: "@
            + detail,
        ErrorModel::TooManyItems { limit } => "refusing to continue: more than "@ + text::decimal(
            limit as nat,
        )
            + " files were discovered (the tileset is either malformed or genuinely enormous)"@,
        ErrorModel::ThreadPool { threads, .. } => "failed to create a "@ + text::decimal(
            threads as nat,
        ) + "-thread worker pool"@,
        ErrorModel::PartialFailure { failed, total } => text::decimal(failed as nat) + " of "@
            + text::decimal(total as nat)
            + " files failed to download; see the errors above"@,
        ErrorModel::Io { action, path, .. } => "failed to "@ + action + " `"@ + path + "`"@,
    }
}

/// The messages of the causes of an error, outermost first.
pub open spec fn causes_of(error: ErrorModel) -> Seq<Seq<char>> {
    match error {
        ErrorModel::Url { source, .. } => source,
        ErrorModel::ClientBuild { source } => source,
        ErrorModel::Request { source, .. } => source.cause,
        ErrorModel::Json { source, .. } => source,
        ErrorModel::ThreadPool { source, .. } => source,
        ErrorModel::Io { source, .. } => source,
        _ => Seq::empty(),
    }
}

/// `head`, then each of `causes` behind a colon.
pub open spec fn chained(head: Seq<char>, causes: Seq<Seq<char>>) -> Seq<char>
    decreases causes.len(),
{
    if causes.len() == 0 {
        head
    } else {
        chained(head, causes.drop_last()) + ": "@ + causes.last()
    }
}

impl Error {
    /// Builds an [`Error::Io`] with the path attached.
    pub fn io(action: &'static str, path: LocalPath, source: Cause) -> (error: Error)
        ensures
            error@ == (ErrorModel::Io { action: action@, path: path@, source: source@ }),
    {
        Error::Io { action, path, source }
    }

    /// The one-line message, without the causes.
    pub fn message(&self) -> (line: String)
        ensures
            line@ == message_of(self@),
    {
        match self {
            Error::Url { input, .. } => {
                let mut line = "invalid URL `".to_owned();
                line.append(input.as_str());
                line.append("`");
                line
            },
            Error::UnsupportedScheme { scheme } => {
                let mut line = "unsupported URL scheme `".to_owned();
                line.append(scheme.as_str());
                line.append("` (expected `http` or `https`)");
                line
            },
            Error::ClientBuild { .. } => "failed to build the HTTP client".to_owned(),
            Error::InvalidHeader { header, reason } => {
                let mut line = "invalid header `".to_owned();
                line.append(header.as_str());
                line.append("`: ");
                line.append(reason.as_str());
                line
            },
            Error::Request { url, .. } => {
                let mut line = "request to `".to_owned();
                line.append(url.as_str());
                line.append("` failed");
                line
            },
            Error::HttpStatus { url, status } => {
                let mut line = "server replied HTTP ".to_owned();
                line.append(text::decimal_text(*status as u64).as_str());
                line.append(" for `");
                line.append(url.as_str());
                line.append("`");
                line
            },
            Error::Json { url, .. } => {
                let mut line = "could not parse JSON from `".to_owned();
                line.append(url.as_str());
                line.append("`");
                line
            },
            Error::MissingRoot { url } => {
                let mut line = "tileset `".to_owned();
                line.append(url.as_str());
                line.append("` has no `root` tile (empty or malformed tileset)");
                line
            },
            Error::UnsafeUri { uri } => {
                let mut line = "refusing to write `".to_owned();
                line.append(uri.as_str());
                line.append(
                    "`: it does not resolve to a safe path inside the output directory",
                );
                line
            },
            Error::PathCollision { path, first, second } => {
                let mut line = "`".to_owned();
                line.append(first.as_str());
                line.append("` and `");
                line.append(second.as_str());
                line.append("` both map to `");
                line.append(path.as_str());
                line.append("`, so the download would be ambiguous");
                line
            },
            Error::UnsupportedSubdivision { url, scheme } => {
                let mut line = "implicit tiling in `".to_owned();
                line.append(url.as_str());
                line.append("` uses unsupported subdivision scheme `");
                line.append(scheme.as_str());
                line.append("`");
                line
            },
            Error::Availability { url, detail } => {
                let mut line = "malformed implicit tiling data in `".to_owned();
                line.append(url.as_str());
                line.append("`: ");
                line.append(detail.as_str());
                line
            },
            Error::Implicit { url, detail } => {
                let mut line = "implicit tiling error in `".to_owned();
                line.append(url.as_str());
                line.append("`: ");
                line.append(detail.as_str());
                line
            },
            Error::TooManyItems { limit } => {
                let mut line = "refusing to continue: more than ".to_owned();
                line.append(text::decimal_text(*limit as u64).as_str());
                line.append(
                    " files were discovered (the tileset is either malformed or genuinely enormous)",
                );
                line
            },
            Error::ThreadPool { threads, .. } => {
                let mut line = "failed to create a ".to_owned();
                line.append(text::decimal_text(*threads as u64).as_str());
                line.append("-thread worker pool");
                line
            },
            Error::PartialFailure { failed, total } => {
                let mut line = text::decimal_text(*failed as u64);
                line.append(" of ");
                line.append(text::decimal_text(*total as u64).as_str());
                line.append(" files failed to download; see the errors above");
                line
            },
            Error::Io { action, path, .. } => {
                let mut line = "failed to ".to_owned();
                line.append(*action);
                line.append(" `");
                line.append(path.as_str());
                line.append("`");
                line
            },
        }
    }
}

fn append_causes(head: String, source: &Cause) -> (line: String)
    ensures
        line@ == chained(head@, source@),
{
    let mut line = head;
    let ghost start = line@;
    let mut i: usize = 0;
    while i < source.messages.len()
        invariant
            i <= source.messages.len(),
            line@ == chained(start, source@.take(i as int)),
        decreases source.messages.len() - i,
    {
        line.append(": ");
        line.append(source.messages[i].as_str());
        assert(source@.take(i + 1).drop_last() =~= source@.take(i as int));
        i += 1;
    }
    assert(source@.take(i as int) =~= source@);
    line
}

/// Flattens an error and the chain of its causes into a single log line.
///
/// The message alone loses the interesting part (the OS or parser diagnostic).
/// Logging the whole chain keeps the output honest without anyone having to
/// re-run with a backtrace.
pub fn format_chain(err: &Error) -> (line: String)
    ensures
        line@ == chained(message_of(err@), causes_of(err@)),
{
    let head = err.message();
    match err {
        Error::Url { source, .. } => append_causes(head, source),
        Error::ClientBuild { source } => append_causes(head, source),
        Error::Request { source, .. } => append_causes(head, &source.cause),
        Error::Json { source, .. } => append_causes(head, source),
        Error::ThreadPool { source, .. } => append_causes(head, source),
        Error::Io { source, .. } => append_causes(head, source),
        _ => head,
    }
}

/// The causes of an error follow its message one by one, each behind a colon and a
/// space: what a message with one cause reads like is what the remaining causes follow.
pub proof fn law_causes_follow_in_order(head: Seq<char>, causes: Seq<Seq<char>>)
    ensures
        causes.len() == 0 ==> chained(head, causes) == head,
        causes.len() > 0 ==> chained(head, causes) == chained(
            head + seq![':', ' '] + causes[0],
            causes.skip(1),
        ),
    decreases causes.len(),
{
    reveal_strlit(": ");
    assert(": "@ =~= seq![':', ' ']);
    if causes.len() == 1 {
        assert(causes.drop_last() =~= Seq::<Seq<char>>::empty());
        assert(causes.skip(1) =~= Seq::<Seq<char>>::empty());
        assert(chained(head, causes.drop_last()) == head);
    } else if causes.len() > 1 {
        let front = causes.drop_last();
        law_causes_follow_in_order(head, front);
        assert(front.skip(1) =~= causes.skip(1).drop_last());
        assert(causes.skip(1).last() == causes.last());
    }
}

/// Whether `part` stands somewhere in `s`, between backquotes.
pub open spec fn quotes(s: Seq<char>, part: Seq<char>) -> bool {
    exists|front: Seq<char>, back: Seq<char>|
        s == #[trigger] (front + (seq!['`'] + part + seq!['`']) + back)
}

proof fn lemma_quotes(s: Seq<char>, front: Seq<char>, part: Seq<char>, back: Seq<char>)
    requires
        s == front + part + back,
        front.len() > 0,
        front.last() == '`',
        back.len() > 0,
        back[0] == '`',
    ensures
        quotes(s, part),
{
    let first = front.drop_last();
    let rest = back.skip(1);
    assert(s =~= first + (seq!['`'] + part + seq!['`']) + rest);
}

/// Every message is actionable: it quotes, in full, the URL, the input, the header, the
/// scheme or the path that the error is about.
pub proof fn law_messages_quote_their_subject(error: ErrorModel)
    ensures
        match error {
            ErrorModel::Url { input, .. } => quotes(message_of(error), input),
            ErrorModel::UnsupportedScheme { scheme } => quotes(message_of(error), scheme),
            ErrorModel::InvalidHeader { header, reason } => quotes(message_of(error), header)
                && text::ends_with(message_of(error), reason),
            ErrorModel::Request { url, .. } => quotes(message_of(error), url),
            ErrorModel::HttpStatus { url, .. } => quotes(message_of(error), url),
            ErrorModel::Json { url, .. } => quotes(message_of(error), url),
            ErrorModel::MissingRoot { url } => quotes(message_of(error), url),
            ErrorModel::UnsafeUri { uri } => quotes(message_of(error), uri),
            ErrorModel::PathCollision { path, first, second } => quotes(message_of(error), path)
                && quotes(message_of(error), first) && quotes(message_of(error), second),
            ErrorModel::UnsupportedSubdivision { url, scheme } => quotes(message_of(error), url)
                && quotes(message_of(error), scheme),
            ErrorModel::Availability { url, detail } => quotes(message_of(error), url)
                && text::ends_with(message_of(error), detail),
            ErrorModel::Implicit { url, detail } => quotes(message_of(error), url)
                && text::ends_with(message_of(error), detail),
            ErrorModel::Io { path, .. } => quotes(message_of(error), path),
            _ => true,
        },
{
    reveal_strlit("`");
    reveal_strlit("`: ");
    let line = message_of(error);
    let close = "`"@;
    let colon = "`: "@;
    match error {
        ErrorModel::Url { input, .. } => {
            reveal_strlit("invalid URL `");
            lemma_quotes(line, "invalid URL `"@, input, close);
        },
        ErrorModel::UnsupportedScheme { scheme } => {
            reveal_strlit("unsupported URL scheme `");
            reveal_strlit("` (expected `http` or `https`)");
            let back = "` (expected `http` or `https`)"@;
            lemma_quotes(line, "unsupported URL scheme `"@, scheme, back);
        },
        ErrorModel::InvalidHeader { header, reason } => {
            reveal_strlit("invalid header `");
            let front = "invalid header `"@;
            assert(line =~= front + header + (colon + reason));
            lemma_quotes(line, front, header, colon + reason);
            assert(line.skip(line.len() - reason.len()) =~= reason);
        },
        ErrorModel::Request { url, .. } => {
            reveal_strlit("request to `");
            reveal_strlit("` failed");
            lemma_quotes(line, "request to `"@, url, "` failed"@);
        },
        ErrorModel::HttpStatus { url, status } => {
            reveal_strlit(" for `");
            let front = "server replied HTTP "@ + text::decimal(status as nat) + " for `"@;
            lemma_quotes(line, front, url, close);
        },
        ErrorModel::Json { url, .. } => {
            reveal_strlit("could not parse JSON from `");
            lemma_quotes(line, "could not parse JSON from `"@, url, close);
        },
        ErrorModel::MissingRoot { url } => {
            reveal_strlit("tileset `");
            reveal_strlit("` has no `root` tile (empty or malformed tileset)");
            let back = "` has no `root` tile (empty or malformed tileset)"@;
            lemma_quotes(line, "tileset `"@, url, back);
        },
        ErrorModel::UnsafeUri { uri } => {
            reveal_strlit("refusing to write `");
            reveal_strlit("`: it does not resolve to a safe path inside the output directory");
            let back = "`: it does not resolve to a safe path inside the output directory"@;
            lemma_quotes(line, "refusing to write `"@, uri, back);
        },
        ErrorModel::PathCollision { path, first, second } => {
            reveal_strlit("` and `");
            reveal_strlit("` both map to `");
            reveal_strlit("`, so the download would be ambiguous");
            let and = "` and `"@;
            let map = "` both map to `"@;
            let end = "`, so the download would be ambiguous"@;
            assert(line =~= close + first + (and + second + map + path + end));
            lemma_quotes(line, close, first, and + second + map + path + end);
            assert(line =~= (close + first + and) + second + (map + path + end));
            lemma_quotes(line, close + first + and, second, map + path + end);
            lemma_quotes(line, close + first + and + second + map, path, end);
        },
        ErrorModel::UnsupportedSubdivision { url, scheme } => {
            reveal_strlit("implicit tiling in `");
            reveal_strlit("` uses unsupported subdivision scheme `");
            let front = "implicit tiling in `"@;
            let uses = "` uses unsupported subdivision scheme `"@;
            assert(line =~= front + url + (uses + scheme + close));
            lemma_quotes(line, front, url, uses + scheme + close);
            lemma_quotes(line, front + url + uses, scheme, close);
        },
        ErrorModel::Availability { url, detail } => {
            reveal_strlit("malformed implicit tiling data in `");
            let front = "malformed implicit tiling data in `"@;
            assert(line =~= front + url + (colon + detail));
            lemma_quotes(line, front, url, colon + detail);
            assert(line.skip(line.len() - detail.len()) =~= detail);
        },
        ErrorModel::Implicit { url, detail } => {
            reveal_strlit("implicit tiling error in `");
            let front = "implicit tiling error in `"@;
            assert(line =~= front + url + (colon + detail));
            lemma_quotes(line, front, url, colon + detail);
            assert(line.skip(line.len() - detail.len()) =~= detail);
        },
        ErrorModel::Io { action, path, .. } => {
            reveal_strlit(" `");
            lemma_quotes(line, "failed to "@ + action + " `"@, path, close);
        },
        _ => {},
    }
}

/// A message that counts something gives the numbers in full, each as a word of its own,
/// and says nothing else of them: two errors of one kind with the same numbers read the
/// same.
pub proof fn law_messages_give_their_numbers(error: ErrorModel)
    ensures
        match error {
            ErrorModel::HttpStatus { url, status } => message_of(error)
                == "server replied HTTP "@ + text::decimal(status as nat) + (" for `"@ + url
                + "`"@),
            ErrorModel::TooManyItems { limit } => text::starts_with(
                message_of(error),
                "refusing to continue: more than "@ + text::decimal(limit as nat) + " "@,
            ),
            ErrorModel::ThreadPool { threads, .. } => message_of(error) == "failed to create a "@
                + (text::decimal(threads as nat) + "-thread worker pool"@),
            ErrorModel::PartialFailure { failed, total } => text::starts_with(
                message_of(error),
                text::decimal(failed as nat) + " of "@ + text::decimal(total as nat) + " "@,
            ),
            _ => true,
        },
{
    reveal_strlit(" ");
    let line = message_of(error);
    match error {
        ErrorModel::HttpStatus { url, status } => {
            assert(line =~= "server replied HTTP "@ + text::decimal(status as nat) + (" for `"@
                + url + "`"@));
        },
        ErrorModel::TooManyItems { limit } => {
            reveal_strlit(
                " files were discovered (the tileset is either malformed or genuinely enormous)",
            );
            let part = "refusing to continue: more than "@ + text::decimal(limit as nat) + " "@;
            assert(line.take(part.len() as int) =~= part);
        },
        ErrorModel::ThreadPool { threads, .. } => {
            assert(line =~= "failed to create a "@ + (text::decimal(threads as nat)
                + "-thread worker pool"@));
        },
        ErrorModel::PartialFailure { failed, total } => {
            reveal_strlit(" files failed to download; see the errors above");
            let part = text::decimal(failed as nat) + " of "@ + text::decimal(total as nat) + " "@;
            assert(line.take(part.len() as int) =~= part);
        },
        _ => {},
    }
}

/// No diagnostic is lost: an error that was caused by another layer has all the messages
/// of that layer for its causes, and no other error has any.
pub proof fn law_diagnostics_are_kept(error: ErrorModel)
    ensures
        error matches ErrorModel::Url { source, .. } ==> causes_of(error) == source,
        error matches ErrorModel::ClientBuild { source } ==> causes_of(error) == source,
        error matches ErrorModel::Request { source, .. } ==> causes_of(error) == source.cause,
        error matches ErrorModel::Json { source, .. } ==> causes_of(error) == source,
        error matches ErrorModel::ThreadPool { source, .. } ==> causes_of(error) == source,
        error matches ErrorModel::Io { source, .. } ==> causes_of(error) == source,
        causes_of(error).len() > 0 ==> error is Url || error is ClientBuild || error is Request
            || error is Json || error is ThreadPool || error is Io,
{
}

} // verus!
