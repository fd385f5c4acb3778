//! The retry policy, and what the HTTP client is configured with.
//!
//! Fetching itself is left to whoever drives the crawl and the downloads; which
//! answer is an error, which error is worth another attempt, and how long to wait
//! before it, is decided here.

use std::time::Duration;

use vstd::arithmetic::power2;
use vstd::prelude::*;

use crate::error;
use crate::error::{Cause, Error, ErrorModel, Result, TransportError, TransportModel};
use crate::local_path::LocalPath;
use crate::text;
use crate::web_url::Url;

verus! {

/// Sent unless the user overrides it. Being identifiable is basic etiquette
/// when a single run can issue thousands of requests at a host.
pub const DEFAULT_USER_AGENT: &'static str = "tileset-downloader/0.1.0";

/// The span that `Duration::from_secs` gives for a number of seconds.
pub uninterp spec fn whole_seconds(seconds: u64) -> Duration;

/// `Duration::from_secs` is the span of that many whole seconds.
pub assume_specification[ std::time::Duration::from_secs ](secs: u64) -> (span: Duration)
    ensures
        span == whole_seconds(secs),
;

/// `Duration::is_zero` tells whether a span is of no time at all, as that of zero
/// seconds is and no other.
pub assume_specification[ std::time::Duration::is_zero ](span: &Duration) -> (zero: bool)
    ensures
        zero == (*span == whole_seconds(0)),
;

/// Everything needed to build the HTTP client and its retry policy.
#[derive(Debug)]
pub struct ClientConfig {
    /// `User-Agent` header.
    pub user_agent: String,
    /// Per-request timeout. Zero disables it.
    pub timeout: Duration,
    /// TCP/TLS connect timeout. Zero disables it.
    pub connect_timeout: Duration,
    /// How many times a transient failure is retried before giving up.
    pub retries: u32,
    /// Extra headers, as raw `Name: Value` strings from `--header`.
    pub headers: Vec<String>,
    /// How many idle connections to keep per host.
    pub max_idle_connections_per_host: usize,
}

impl Clone for ClientConfig {
    fn clone(&self) -> (copy: ClientConfig)
        ensures
            copy.user_agent@ == self.user_agent@,
            copy.timeout == self.timeout,
            copy.connect_timeout == self.connect_timeout,
            copy.retries == self.retries,
            text::texts(copy.headers@) == text::texts(self.headers@),
            copy.max_idle_connections_per_host == self.max_idle_connections_per_host,
    {
        ClientConfig {
            user_agent: self.user_agent.clone(),
            timeout: self.timeout,
            connect_timeout: self.connect_timeout,
            retries: self.retries,
            headers: text::duplicate_texts(&self.headers),
            max_idle_connections_per_host: self.max_idle_connections_per_host,
        }
    }
}

impl Default for ClientConfig {
    fn default() -> (config: ClientConfig)
        ensures
            config.user_agent@ == DEFAULT_USER_AGENT@,
            config.timeout == whole_seconds(60),
            config.connect_timeout == whole_seconds(30),
            config.retries == 3,
            config.headers@.len() == 0,
            config.max_idle_connections_per_host == 32,
    {
        ClientConfig {
            user_agent: DEFAULT_USER_AGENT.to_owned(),
            timeout: Duration::from_secs(60),
            connect_timeout: Duration::from_secs(30),
            retries: 3,
            headers: Vec::new(),
            max_idle_connections_per_host: 32,
        }
    }
}

/// The limit that a timeout sets.
pub open spec fn limit_of(timeout: Duration) -> Option<Duration> {
    if timeout == whole_seconds(0) {
        None
    } else {
        Some(timeout)
    }
}

/// A timeout of no time at all sets no limit, and any other sets itself.
pub proof fn law_zero_disables_a_timeout(timeout: Duration)
    ensures
        limit_of(timeout) is None <==> timeout == whole_seconds(0),
        limit_of(timeout) is Some ==> limit_of(timeout) == Some(timeout),
{
}

/// The limit that a timeout sets: none where it is zero.
pub fn time_limit(timeout: Duration) -> (limit: Option<Duration>)
    ensures
        limit == (if timeout == whole_seconds(0) {
            None
        } else {
            Some(timeout)
        }),
        limit == limit_of(timeout),
{
    if timeout.is_zero() {
        None
    } else {
        Some(timeout)
    }
}

/// One request header.
#[derive(Debug, Clone)]
pub struct HeaderField {
    /// The name, in small letters.
    pub name: String,
    /// The bytes of the value.
    pub value: Vec<u8>,
}

/// What a [`HeaderField`] stands for.
#[verifier::ext_equal]
pub struct FieldModel {
    pub name: Seq<char>,
    pub value: Seq<u8>,
}

impl View for HeaderField {
    type V = FieldModel;

    open spec fn view(&self) -> FieldModel {
        FieldModel { name: self.name@, value: self.value@ }
    }
}

/// A character that the name of a header may hold.
pub open spec fn is_token_char(c: char) -> bool {
    ||| 'a' <= c <= 'z'
    ||| 'A' <= c <= 'Z'
    ||| '0' <= c <= '9'
    ||| c == '!'
    ||| c == '#'
    ||| c == '$'
    ||| c == '%'
    ||| c == '&'
    ||| c == '\''
    ||| c == '*'
    ||| c == '+'
    ||| c == '-'
    ||| c == '.'
    ||| c == '^'
    ||| c == '_'
    ||| c == '`'
    ||| c == '|'
    ||| c == '~'
}

/// A text that is a legal name of a header.
pub open spec fn is_header_name(name: Seq<char>) -> bool {
    &&& 1 <= name.len() <= 65535
    &&& forall|i: int| 0 <= i < name.len() ==> is_token_char(#[trigger] name[i])
}

/// A text that is a legal value of a header: no control characters but tabs.
pub open spec fn is_header_value(value: Seq<char>) -> bool {
    forall|i: int|
        0 <= i < value.len() ==> (#[trigger] value[i] >= ' ' && value[i] != '\u{7f}') || value[i]
            == '\t'
}

/// A checked name or value, or the message of the refusal.
pub open spec fn name_outcome(result: core::result::Result<String, String>) -> core::result::Result<
    Seq<char>,
    Seq<char>,
> {
    match result {
        Ok(name) => Ok(name@),
        Err(message) => Err(message@),
    }
}

/// A checked value, or the message of the refusal.
pub open spec fn value_outcome(
    result: core::result::Result<Vec<u8>, String>,
) -> core::result::Result<Seq<u8>, Seq<char>> {
    match result {
        Ok(value) => Ok(value@),
        Err(message) => Err(message@),
    }
}

/// `HeaderName::try_from` of a string slice: accepts the legal names and puts them in
/// small letters; the message of a refusal is always the same.
#[verifier::external_body]
fn header_name(name: &str) -> (out: core::result::Result<String, String>)
    ensures
        name_outcome(out) == (if is_header_name(name@) {
            Ok::<Seq<char>, Seq<char>>(text::lower(name@))
        } else {
            Err::<Seq<char>, Seq<char>>("invalid HTTP header name"@)
        }),
{
    reqwest::header::HeaderName::try_from(name).map(|n| n.as_str().to_owned()).map_err(
        |error| error.to_string(),
    )
}

/// `HeaderValue::try_from` of a string slice: accepts the legal values and keeps their
/// bytes; the message of a refusal is always the same.
#[verifier::external_body]
fn header_value(value: &str) -> (out: core::result::Result<Vec<u8>, String>)
    ensures
        value_outcome(out) == (if is_header_value(value@) {
            Ok::<Seq<u8>, Seq<char>>(vstd::utf8::encode_utf8(value@))
        } else {
            Err::<Seq<u8>, Seq<char>>("failed to parse header value"@)
        }),
{
    reqwest::header::HeaderValue::try_from(value).map(|v| v.as_bytes().to_vec()).map_err(
        |error| error.to_string(),
    )
}

/// The header that a `Name: Value` string stands for, or why it is none.
pub open spec fn header_of(entry: Seq<char>) -> core::result::Result<FieldModel, ErrorModel> {
    if !entry.contains(':') {
        Err(ErrorModel::InvalidHeader { header: entry, reason: "expected `Name: Value`"@ })
    } else {
        let before = text::before_either(entry, ':', ':');
        let name = text::trim(before);
        let value = text::trim(entry.skip(before.len() as int + 1));
        if !is_header_name(name) {
            Err(ErrorModel::InvalidHeader { header: entry, reason: "invalid HTTP header name"@ })
        } else if !is_header_value(value) {
            Err(
                ErrorModel::InvalidHeader {
                    header: entry,
                    reason: "failed to parse header value"@,
                },
            )
        } else {
            Ok(FieldModel { name: text::lower(name), value: vstd::utf8::encode_utf8(value) })
        }
    }
}

/// The first `n` headers, or the first refusal.
pub open spec fn headers_of(entries: Seq<Seq<char>>, n: nat) -> core::result::Result<
    Seq<FieldModel>,
    ErrorModel,
>
    decreases n,
{
    if n == 0 {
        Ok(Seq::empty())
    } else {
        match headers_of(entries, (n - 1) as nat) {
            Err(error) => Err(error),
            Ok(fields) => match header_of(entries[n - 1]) {
                Err(error) => Err(error),
                Ok(field) => Ok(fields.push(field)),
            },
        }
    }
}

/// What a list of headers stands for.
pub open spec fn field_views(fields: Seq<HeaderField>) -> Seq<FieldModel> {
    fields.map_values(|f: HeaderField| f@)
}

/// What a result of headers stands for.
pub open spec fn fields_outcome(result: Result<Vec<HeaderField>>) -> core::result::Result<
    Seq<FieldModel>,
    ErrorModel,
> {
    match result {
        Ok(fields) => Ok(field_views(fields@)),
        Err(error) => Err(error@),
    }
}

proof fn lemma_first_bad_header(entries: Seq<Seq<char>>, n: nat, total: nat)
    requires
        n <= total,
        headers_of(entries, n) is Err,
    ensures
        headers_of(entries, total) == headers_of(entries, n),
    decreases total - n,
{
    if n < total {
        lemma_first_bad_header(entries, n, (total - 1) as nat);
    }
}

fn parse_header(entry: &String) -> (out: Result<HeaderField>)
    ensures
        error::outcome(out) == header_of(entry@),
{
    if !text::has_char(entry.as_str(), ':') {
        return Err(
            Error::InvalidHeader {
                header: entry.clone(),
                reason: "expected `Name: Value`".to_owned(),
            },
        );
    }
    let before = text::text_before_either(entry.as_str(), ':', ':');
    proof {
        text::lemma_before_either_length(entry@, ':', ':');
    }
    let chars = text::chars_of(entry.as_str());
    let after = text::text_of(&chars, before.as_str().unicode_len() + 1, chars.len());
    assert(after@ =~= entry@.skip(before@.len() as int + 1));
    let name = text::trim_text(before.as_str());
    let value = text::trim_text(after.as_str());
    let name = match header_name(name.as_str()) {
        Ok(name) => name,
        Err(reason) => {
            return Err(Error::InvalidHeader { header: entry.clone(), reason });
        },
    };
    let value = match header_value(value.as_str()) {
        Ok(value) => value,
        Err(reason) => {
            return Err(Error::InvalidHeader { header: entry.clone(), reason });
        },
    };
    Ok(HeaderField { name, value })
}

/// Parses `Name: Value` strings into request headers, in the order given. A name may
/// come more than once.
pub fn parse_headers(raw: &Vec<String>) -> (out: Result<Vec<HeaderField>>)
    ensures
        fields_outcome(out) == headers_of(text::texts(raw@), raw@.len()),
{
    let ghost entries = text::texts(raw@);
    let mut fields: Vec<HeaderField> = Vec::new();
    let mut i: usize = 0;
    assert(field_views(fields@) =~= Seq::<FieldModel>::empty());
    while i < raw.len()
        invariant
            i <= raw.len(),
            entries == text::texts(raw@),
            headers_of(entries, i as nat) == Ok::<Seq<FieldModel>, ErrorModel>(
                field_views(fields@),
            ),
        decreases raw.len() - i,
    {
        let ghost before = field_views(fields@);
        assert(entries[i as int] == raw@[i as int]@);
        match parse_header(&raw[i]) {
            Ok(field) => {
                let ghost added = field@;
                fields.push(field);
                assert(field_views(fields@) =~= before.push(added));
            },
            Err(error) => {
                proof {
                    lemma_first_bad_header(entries, (i + 1) as nat, entries.len());
                }
                return Err(error);
            },
        }
        i += 1;
    }
    Ok(fields)
}

/// Transient failures are worth retrying; everything else is not.
///
/// A 404 will never heal, and retrying a path-traversal rejection is nonsense.
/// But a 503, a 429 (rate limit), a dropped connection, or a timeout very often
/// does heal; and at thousands of tiles, one unlucky request must not sink the
/// whole run.
pub open spec fn heals(error: ErrorModel) -> bool {
    match error {
        ErrorModel::HttpStatus { status, .. } => status == 408 || status == 425 || status == 429
            || 500 <= status <= 599,
        ErrorModel::Request { source, .. } => source.timeout || source.connect || source.body
            || source.decode || source.request,
        _ => false,
    }
}

/// Whether a failure is worth retrying.
pub fn is_transient(err: &Error) -> (transient: bool)
    ensures
        transient == heals(err@),
        err@ matches ErrorModel::HttpStatus { status, .. } ==> transient == (status == 408 || status
            == 425 || status == 429 || status / 100 == 5),
        err@ matches ErrorModel::Request { source, .. } ==> transient == (source.timeout
            || source.connect || source.body || source.decode || source.request),
        transient ==> err@ is HttpStatus || err@ is Request,
{
    match err {
        Error::HttpStatus { status, .. } => *status == 408 || *status == 425 || *status == 429 || (
        500 <= *status && *status <= 599),
        Error::Request { source, .. } => source.timeout || source.connect || source.body
            || source.decode || source.request,
        _ => false,
    }
}

/// Whether a status is that of a success: one of 200 to 299.
pub open spec fn is_success(status: u16) -> bool {
    200 <= status <= 299
}

/// A status is a success exactly where its first of three digits is a two, and none that
/// is one heals.
pub proof fn law_success_is_the_second_hundred(url: Seq<char>, status: u16)
    ensures
        is_success(status) <==> status / 100 == 2,
        is_success(status) ==> !heals(ErrorModel::HttpStatus { url, status }),
{
}

/// The answer of a server is a success where its status is one of 200 to 299.
pub fn check_status(url: &Url, status: u16) -> (out: Result<()>)
    ensures
        error::done(out) == (if is_success(status) {
            Ok::<(), ErrorModel>(())
        } else {
            Err::<(), ErrorModel>(ErrorModel::HttpStatus { url: url@.text, status })
        }),
        out is Ok <==> status / 100 == 2,
{
    if 200 <= status && status <= 299 {
        Ok(())
    } else {
        Err(Error::HttpStatus { url: url.as_str().to_owned(), status })
    }
}

/// The failure that counts, once another one was met.
pub open spec fn first_failure(
    before: Option<Seq<Seq<char>>>,
    cause: Seq<Seq<char>>,
) -> Option<Seq<Seq<char>>> {
    match before {
        Some(first) => Some(first),
        None => Some(cause),
    }
}

/// The first of two failures counts, whatever came after it.
pub proof fn law_first_failure_counts(first: Seq<Seq<char>>, second: Seq<Seq<char>>)
    ensures
        first_failure(None, first) == Some(first),
        first_failure(first_failure(None, first), second) == Some(first),
{
}

/// The failures to write a body, of which the first counts: copying stops there, and
/// whatever follows is a consequence.
#[derive(Debug, Clone)]
pub struct WriteRecord {
    first: Option<Cause>,
}

impl View for WriteRecord {
    type V = Option<Seq<Seq<char>>>;

    closed spec fn view(&self) -> Option<Seq<Seq<char>>> {
        match self.first {
            Some(cause) => Some(cause@),
            None => None,
        }
    }
}

impl WriteRecord {
    /// No failure yet.
    pub fn new() -> (record: WriteRecord)
        ensures
            record@ is None,
    {
        WriteRecord { first: None }
    }

    /// Takes down a failure, unless there was one before.
    pub fn note(&mut self, cause: Cause)
        ensures
            final(self)@ == (match old(self)@ {
                Some(first) => Some(first),
                None => Some(cause@),
            }),
            final(self)@ == first_failure(old(self)@, cause@),
    {
        if self.first.is_none() {
            self.first = Some(cause);
        }
    }

    /// The first failure, if there was one.
    pub fn into_failure(self) -> (failure: Option<Cause>)
        ensures
            match failure {
                Some(cause) => self@ == Some(cause@),
                None => self@ is None,
            },
    {
        self.first
    }
}

/// The error of copying a body, where the transport failed and writing may have failed too.
pub open spec fn copy_error(
    transport: TransportModel,
    write_failure: Option<Seq<Seq<char>>>,
    url: Seq<char>,
    path: Seq<char>,
) -> ErrorModel {
    match write_failure {
        Some(cause) => ErrorModel::Io { action: "write"@, path, source: cause },
        None => ErrorModel::Request { url, source: transport },
    }
}

/// A failure to write is what is reported, of the file and with its own diagnostic, and is
/// never retried, however the transport failed. Without one the failure of the transport is
/// reported as it is.
pub proof fn law_local_failures_win(
    transport: TransportModel,
    cause: Seq<Seq<char>>,
    url: Seq<char>,
    path: Seq<char>,
)
    ensures
        ({
            let local = copy_error(transport, Some(cause), url, path);
            &&& !heals(local)
            &&& error::causes_of(local) == cause
            &&& local matches ErrorModel::Io { path: at, .. } && at == path
        }),
        ({
            let remote = copy_error(transport, None, url, path);
            &&& heals(remote) <==> transport.timeout || transport.connect || transport.body
                || transport.decode || transport.request
            &&& error::causes_of(remote) == transport.cause
            &&& remote matches ErrorModel::Request { url: at, .. } && at == url
        }),
{
}

/// What copying a body into a file comes to.
///
/// A failure on the write side is local: a full disk, a revoked permission. Retrying
/// it cannot help, and the OS diagnostic is the actionable one, so it becomes an
/// [`Error::Io`] rather than a request error that would be retried.
pub fn copy_outcome(
    copied: core::result::Result<u64, TransportError>,
    write_failure: Option<Cause>,
    url: &Url,
    path: &LocalPath,
) -> (out: Result<u64>)
    ensures
        match (copied, write_failure) {
            (Ok(bytes), _) => out == Ok::<u64, Error>(bytes),
            (Err(_), Some(cause)) => out matches Err(error) && error@ == (ErrorModel::Io {
                action: "write"@,
                path: path@,
                source: cause@,
            }) && !heals(error@),
            (Err(source), None) => out matches Err(error) && error@ == (ErrorModel::Request {
                url: url@.text,
                source: source@,
            }),
        },
        copied matches Ok(bytes) ==> out == Ok::<u64, Error>(bytes),
        copied matches Err(source) ==> (out matches Err(error) && error@ == copy_error(
            source@,
            (match write_failure {
                Some(cause) => Some(cause@),
                None => None,
            }),
            url@.text,
            path@,
        )),
{
    match copied {
        Ok(bytes) => Ok(bytes),
        Err(source) => match write_failure {
            Some(cause) => Err(Error::io("write", path.duplicate(), cause)),
            None => Err(Error::Request { url: url.as_str().to_owned(), source }),
        },
    }
}

/// How long to wait before a retry at least, in milliseconds: 250, doubled with each
/// attempt, and never more than 8000.
pub open spec fn base_delay(attempt: u32) -> int {
    let doubled = 250 * power2::pow2(attempt as nat);
    if doubled < 8000 {
        doubled as int
    } else {
        8000
    }
}

/// How long to wait before a retry, in milliseconds, at some millisecond of a second.
pub open spec fn jittered(attempt: u32, millis: u32) -> int {
    base_delay(attempt) + millis % 250
}

/// The jitter adds less than a quarter of a second, a millisecond more with every
/// millisecond, and starts over with every quarter.
pub proof fn law_jitter_stays_below_a_quarter(attempt: u32, millis: u32)
    ensures
        millis < 250 ==> jittered(attempt, millis) == base_delay(attempt) + millis,
        millis <= u32::MAX - 250 ==> jittered(attempt, (millis + 250) as u32) == jittered(
            attempt,
            millis,
        ),
{
}

proof fn lemma_base_delay(attempt: u32)
    ensures
        base_delay(attempt) == (match attempt {
            0 => 250,
            1 => 500,
            2 => 1000,
            3 => 2000,
            4 => 4000,
            _ => 8000int,
        }),
{
    power2::lemma2_to64();
    if attempt > 5 {
        power2::lemma_pow2_strictly_increases(5, attempt as nat);
    }
}

/// How long to wait before a retry, in milliseconds, with a jitter from the
/// milliseconds of the current second.
pub fn backoff_at(attempt: u32, millis: u32) -> (delay: u64)
    ensures
        delay == base_delay(attempt) + millis % 250,
        delay == jittered(attempt, millis),
{
    proof {
        lemma_base_delay(attempt);
    }
    let base: u64 = match attempt {
        0 => 250,
        1 => 500,
        2 => 1000,
        3 => 2000,
        4 => 4000,
        _ => 8000,
    };
    base + (millis % 250) as u64
}

/// Backing off grows, until it stops growing: whatever the jitter, each of the first
/// five retries waits longer than the one before, and none waits longer than 8249
/// milliseconds.
pub proof fn law_backoff_grows_then_caps(attempt: u32, jitter: u64, other: u64)
    requires
        jitter < 250,
        other < 250,
    ensures
        attempt < 5 ==> base_delay(attempt) + jitter < base_delay((attempt + 1) as u32) + other,
        250 <= base_delay(attempt) + jitter <= 8249,
{
    lemma_base_delay(attempt);
    lemma_base_delay((attempt + 1) as u32);
}

/// `std::time::SystemTime`, an instant of the system clock.
#[verifier::external_type_specification]
#[verifier::external_body]
pub struct ExSystemTime(std::time::SystemTime);

/// `std::time::SystemTimeError`, the distance to a later instant.
#[verifier::external_type_specification]
#[verifier::external_body]
pub struct ExSystemTimeError(std::time::SystemTimeError);

/// `SystemTime::now` reads the system clock. Nothing is claimed of what it reads.
pub assume_specification[ std::time::SystemTime::now ]() -> std::time::SystemTime;

/// `SystemTime::duration_since` the Unix epoch. Nothing is claimed of the span.
#[verifier::external_body]
fn since_epoch(now: std::time::SystemTime) -> (span: core::result::Result<
    Duration,
    std::time::SystemTimeError,
>)
{
    now.duration_since(std::time::UNIX_EPOCH)
}

/// `Duration::subsec_millis` is the fractional part of a span in milliseconds, and so
/// always below 1000.
pub assume_specification[ std::time::Duration::subsec_millis ](
    span: &Duration,
) -> (millis: u32)
    ensures
        millis < 1000,
;

/// Exponential backoff with a jitter derived from the wall clock.
///
/// No source of random numbers is needed: the sub-second part of the current time is
/// enough to desynchronise retries that were triggered in parallel.
pub fn backoff(attempt: u32) -> (delay: u64)
    ensures
        base_delay(attempt) <= delay < base_delay(attempt) + 250,
{
    let millis: u32 = match since_epoch(std::time::SystemTime::now()) {
        Ok(span) => span.subsec_millis(),
        Err(_) => 0,
    };
    backoff_at(attempt, millis)
}

/// The attempts at one request: how many retries there may be, and how many there
/// were.
#[derive(Debug, Clone, Copy, PartialEq, Eq, Structural)]
pub struct Retries {
    /// How many retries there may be.
    pub allowed: u32,
    /// How many retries there were.
    pub used: u32,
}

impl Retries {
    /// The attempts at a request that was not sent yet.
    pub fn new(allowed: u32) -> (retries: Retries)
        ensures
            retries == (Retries { allowed, used: 0 }),
    {
        Retries { allowed, used: 0 }
    }

    /// Decides about a failure: how long to wait before the next attempt, or nothing
    /// where the failure is final.
    pub fn after_failure(&mut self, err: &Error) -> (delay: Option<u64>)
        ensures
            delay is Some <==> old(self).used < old(self).allowed && heals(err@),
            err@ matches ErrorModel::HttpStatus { status, .. } ==> (delay is Some <==> old(
                self,
            ).used < old(self).allowed && (status == 408 || status == 425 || status == 429 || status
                / 100 == 5)),
            err@ matches ErrorModel::Request { source, .. } ==> (delay is Some <==> old(self).used
                < old(self).allowed && (source.timeout || source.connect || source.body
                || source.decode || source.request)),
            delay is Some ==> err@ is HttpStatus || err@ is Request,
            delay matches Some(millis) ==> base_delay(old(self).used) <= millis < base_delay(
                old(self).used,
            ) + 250,
            final(self).allowed == old(self).allowed,
            final(self).used == old(self).used + (if delay is Some {
                1int
            } else {
                0
            }),
    {
        if self.used < self.allowed && is_transient(err) {
            let delay = backoff(self.used);
            self.used = self.used + 1;
            Some(delay)
        } else {
            None
        }
    }
}

/// The decisions about a sequence of failures, each of which was met by a retry.
pub open spec fn all_retried(start: Retries, failures: Seq<ErrorModel>, end: Retries) -> bool
    decreases failures.len(),
{
    if failures.len() == 0 {
        end == start
    } else {
        &&& end.allowed == start.allowed
        &&& 0 < end.used <= end.allowed
        &&& heals(failures.last())
        &&& all_retried(
            start,
            failures.drop_last(),
            Retries { allowed: end.allowed, used: (end.used - 1) as u32 },
        )
    }
}

/// A request is sent at most once more than there may be retries, and only after
/// failures that may heal.
pub proof fn law_retries_are_bounded(start: Retries, failures: Seq<ErrorModel>, end: Retries)
    requires
        start.used <= start.allowed,
        all_retried(start, failures, end),
    ensures
        failures.len() == end.used - start.used,
        failures.len() <= start.allowed,
        forall|i: int| 0 <= i < failures.len() ==> heals(#[trigger] failures[i]),
    decreases failures.len(),
{
    if failures.len() > 0 {
        let before = Retries { allowed: end.allowed, used: (end.used - 1) as u32 };
        law_retries_are_bounded(start, failures.drop_last(), before);
        assert forall|i: int| 0 <= i < failures.len() implies heals(#[trigger] failures[i]) by {
            if i < failures.len() - 1 {
                assert(heals(failures.drop_last()[i]));
            }
        }
    }
}

/// Which failures are worth another attempt: of the answers of a server, a timeout (408),
/// one that came too early (425), a rate limit (429) and every error of the server's own,
/// whose status is in the fifth hundred; of the failures of the transport, those to
/// connect, to send, to read in time, to read to the end, and to decode. Nothing else is,
/// and where the failure happened does not matter.
pub proof fn law_failures_that_heal(error: ErrorModel)
    ensures
        error matches ErrorModel::HttpStatus { status, .. } ==> (heals(error) <==> status == 408
            || status == 425 || status == 429 || status / 100 == 5),
        error matches ErrorModel::Request { source, .. } ==> (!heals(error) <==> !source.timeout
            && !source.connect && !source.body && !source.decode && !source.request),
        heals(error) ==> error is HttpStatus || error is Request,
{
}

/// The wait starts at a quarter of a second, and doubles with each attempt up to eight
/// seconds.
pub proof fn law_wait_doubles(attempt: u32)
    ensures
        base_delay(0) == 250,
        attempt < u32::MAX && base_delay(attempt) < 8000 ==> base_delay((attempt + 1) as u32) == 2
            * base_delay(attempt),
        attempt < u32::MAX && base_delay(attempt) >= 8000 ==> base_delay((attempt + 1) as u32)
            == base_delay(attempt) == 8000,
{
    lemma_base_delay(0);
    lemma_base_delay(attempt);
    if attempt < u32::MAX {
        lemma_base_delay((attempt + 1) as u32);
    }
}

/// The name of a header is made of the visible ASCII characters, without the separators
/// that HTTP reserves.
pub proof fn law_names_hold_no_separators(c: char)
    ensures
        is_token_char(c) <==> 0x21 <= c as u32 <= 0x7e && !seq![
            '"', '(', ')', ',', '/', ':', ';', '<', '=', '>', '?', '@', '[', '\\', ']', '{', '}',
        ].contains(c),
{
    let separators = seq![
        '"', '(', ')', ',', '/', ':', ';', '<', '=', '>', '?', '@', '[', '\\', ']', '{', '}',
    ];
    assert(separators[0] == '"' && separators[1] == '(' && separators[2] == ')' && separators[3]
        == ',' && separators[4] == '/' && separators[5] == ':' && separators[6] == ';'
        && separators[7] == '<' && separators[8] == '=' && separators[9] == '>'
        && separators[10] == '?' && separators[11] == '@' && separators[12] == '['
        && separators[13] == '\\' && separators[14] == ']' && separators[15] == '{'
        && separators[16] == '}');
}

/// The value of a header may hold anything but control characters, of which the tab is
/// allowed too.
pub proof fn law_values_hold_no_controls(value: Seq<char>)
    ensures
        is_header_value(value) <==> !exists|i: int|
            {
                &&& 0 <= i < value.len()
                &&& (#[trigger] value[i]) < ' ' && value[i] != '\t' || value[i] == '\u{7f}'
            },
{
}

/// A header is cut at its first colon, and white space around its two parts does not
/// count. The name is put in small letters, the value is kept byte for byte and may hold
/// further colons, and an illegal part refuses the header as it was given.
pub proof fn law_header_is_cut_at_the_first_colon(
    a: Seq<char>,
    name: Seq<char>,
    b: Seq<char>,
    c: Seq<char>,
    value: Seq<char>,
    d: Seq<char>,
)
    requires
        forall|i: int| 0 <= i < a.len() ==> text::is_white_space(#[trigger] a[i]),
        forall|i: int| 0 <= i < b.len() ==> text::is_white_space(#[trigger] b[i]),
        forall|i: int| 0 <= i < c.len() ==> text::is_white_space(#[trigger] c[i]),
        forall|i: int| 0 <= i < d.len() ==> text::is_white_space(#[trigger] d[i]),
        !name.contains(':'),
        name.len() > 0 ==> !text::is_white_space(name[0]) && !text::is_white_space(name.last()),
        value.len() > 0 ==> !text::is_white_space(value[0]) && !text::is_white_space(value.last()),
    ensures
        ({
            let entry = a + name + b + seq![':'] + (c + value + d);
            if is_header_name(name) && is_header_value(value) {
                header_of(entry) == Ok::<FieldModel, ErrorModel>(
                    FieldModel {
                        name: text::lower(name),
                        value: vstd::utf8::encode_utf8(value),
                    },
                )
            } else {
                &&& header_of(entry) matches Err(ErrorModel::InvalidHeader { header, reason })
                    && header == entry && reason == (if is_header_name(name) {
                    "failed to parse header value"@
                } else {
                    "invalid HTTP header name"@
                })
            }
        }),
{
    let left = a + name + b;
    let right = c + value + d;
    let entry = left + seq![':'] + right;
    assert forall|i: int| 0 <= i < left.len() implies #[trigger] left[i] != ':' by {
        if i < a.len() {
            assert(text::is_white_space(a[i]));
        } else if i < a.len() + name.len() {
            assert(name.contains(name[i - a.len()]));
        } else {
            assert(text::is_white_space(b[i - a.len() - name.len()]));
        }
    }
    let rest = seq![':'] + right;
    assert(entry =~= left + rest);
    assert(rest[0] == ':');
    text::law_head_is_all_before(left, rest, ':', ':');
    assert(entry[left.len() as int] == ':');
    assert(entry.contains(':'));
    assert(entry.skip(left.len() as int + 1) =~= right);
    text::law_trim_takes_the_ends(a, name, b);
    text::law_trim_takes_the_ends(c, value, d);
}

/// A text without a colon is no header.
pub proof fn law_header_needs_a_colon(entry: Seq<char>)
    requires
        !entry.contains(':'),
    ensures
        header_of(entry) matches Err(ErrorModel::InvalidHeader { header, reason }) && header
            == entry && reason == "expected `Name: Value`"@,
{
}

/// Every header is sent, in the order given, and one that is illegal refuses them all: the
/// first of these gives the error.
pub proof fn law_headers_are_all_or_none(entries: Seq<Seq<char>>, n: nat)
    requires
        n <= entries.len(),
    ensures
        headers_of(entries, n) matches Ok(fields) ==> fields.len() == n && forall|i: int|
            0 <= i < n ==> header_of(entries[i]) == Ok::<FieldModel, ErrorModel>(
                #[trigger] fields[i],
            ),
        headers_of(entries, n) matches Err(error) ==> exists|k: int|
            {
                &&& 0 <= k < n
                &&& header_of(#[trigger] entries[k]) == Err::<FieldModel, ErrorModel>(error)
                &&& forall|i: int| 0 <= i < k ==> header_of(#[trigger] entries[i]) is Ok
            },
    decreases n,
{
    if n > 0 {
        let m = (n - 1) as nat;
        law_headers_are_all_or_none(entries, m);
        match headers_of(entries, m) {
            Ok(fields) => {
                assert forall|i: int| 0 <= i < m implies header_of(#[trigger] entries[i]) is Ok by {
                    assert(header_of(entries[i]) == Ok::<FieldModel, ErrorModel>(fields[i]));
                }
                assert(entries[m as int] == entries[n - 1]);
            },
            Err(error) => {
                let k = choose|k: int|
                    {
                        &&& 0 <= k < m
                        &&& header_of(#[trigger] entries[k]) == Err::<FieldModel, ErrorModel>(
                            error,
                        )
                        &&& forall|i: int| 0 <= i < k ==> header_of(#[trigger] entries[i]) is Ok
                    };
                assert(header_of(entries[k]) == Err::<FieldModel, ErrorModel>(error));
            },
        }
    }
}

/// A name is legal exactly where it has a character, has no more than 65535, and has none but
/// visible ASCII characters that are not separators.
pub proof fn law_legal_names_are_tokens(name: Seq<char>)
    ensures
        is_header_name(name) <==> name.len() > 0 && name.len() < 0x1_0000 && !exists|i: int|
            0 <= i < name.len() && !is_token_char(#[trigger] name[i]),
{
}

} // verus!
