//! URLs, held as the plain parts that the rest of the crate reads.
//!
//! Parsing, reference resolution and the three setters are those of the `url`
//! crate; every [`Url`] comes out of one of them, or is a copy of one that did. It
//! keeps the crate's own value beside the parts, and that value is what references
//! are resolved against and what the setters start from.

use url::Url as OutsideUrl;
use vstd::prelude::*;

use crate::error;
use crate::error::{Cause, Error, ErrorModel, Result};
use crate::text;

verus! {

/// What a [`Url`] stands for: its serialisation and the parts read from it.
#[verifier::ext_equal]
pub struct UrlParts {
    /// The whole serialisation.
    pub text: Seq<char>,
    /// The scheme, without the colon.
    pub scheme: Seq<char>,
    /// The host, if there is one.
    pub host: Option<Seq<char>>,
    /// The port, where it is not the default of the scheme.
    pub port: Option<u16>,
    /// The port, or the default of the scheme where one is known.
    pub known_port: Option<u16>,
    /// The path, still percent-encoded.
    pub path: Seq<char>,
    /// The query, without the question mark.
    pub query: Option<Seq<char>>,
    /// The fragment, without the hash.
    pub fragment: Option<Seq<char>>,
}

/// What `url::Url::parse` makes of a text: the URL, or the message of its error.
pub uninterp spec fn parsed_url(input: Seq<char>) -> core::result::Result<UrlParts, Seq<char>>;

/// What `url::Url::join` makes of a reference, on the URL with serialisation `base`.
pub uninterp spec fn joined_url(base: Seq<char>, reference: Seq<char>) -> core::result::Result<
    UrlParts,
    Seq<char>,
>;

/// The URL with serialisation `url` after `url::Url::set_path`.
pub uninterp spec fn url_with_path(url: Seq<char>, path: Seq<char>) -> UrlParts;

/// The URL with serialisation `url` after `url::Url::set_query` without a query.
pub uninterp spec fn url_without_query(url: Seq<char>) -> UrlParts;

/// The URL with serialisation `url` after `url::Url::set_fragment` without a
/// fragment.
pub uninterp spec fn url_without_fragment(url: Seq<char>) -> UrlParts;

/// The schemes that can be fetched.
pub open spec fn is_web_scheme(scheme: Seq<char>) -> bool {
    scheme == "http"@ || scheme == "https"@
}

/// What every URL with a fetchable scheme keeps: its path starts at the root, and
/// its serialisation, if it parses at all, parses to the very same parts. (A host
/// label can be too long to be parsed once it is in its ASCII form.)
pub open spec fn is_sound(url: UrlParts) -> bool {
    is_web_scheme(url.scheme) ==> {
        &&& url.path.len() > 0
        &&& url.path[0] == '/'
        &&& parsed_url(url.text) matches Ok(again) ==> again == url
    }
}

/// How many characters of `path` come up to and including its last slash.
pub open spec fn directory_length(path: Seq<char>) -> nat
    decreases path.len(),
{
    if path.len() == 0 {
        0
    } else if path.last() == '/' {
        path.len()
    } else {
        directory_length(path.drop_last())
    }
}

/// `path` up to and including its last slash; `/` where it has none.
pub open spec fn directory(path: Seq<char>) -> Seq<char> {
    if path.contains('/') {
        path.take(directory_length(path) as int)
    } else {
        seq!['/']
    }
}

/// The length of a serialisation up to its last part that starts behind the path: up
/// to the fragment, or up to the query where there is no fragment. The `url` crate
/// keeps such a position in 32 bits.
pub open spec fn address_length(url: UrlParts) -> int {
    match (url.query, url.fragment) {
        (_, Some(fragment)) => url.text.len() - fragment.len() - 1,
        (Some(query), None) => url.text.len() - query.len() - 1,
        (None, None) => url.text.len() as int,
    }
}

/// Whether `path` is the directory of a URL's own path, or that path with a slash
/// behind it, where it has none.
pub open spec fn made_from_own(path: Seq<char>, own: Seq<char>) -> bool {
    ||| path == directory(own)
    ||| path == own.push('/') && (own.len() == 0 || own.last() != '/')
}

/// How much longer a URL can become when `path`, made from its own path, is set.
pub open spec fn path_growth(url: UrlParts, path: Seq<char>) -> int {
    if !is_web_scheme(url.scheme) {
        3
    } else if path == directory(url.path) {
        0
    } else {
        1
    }
}

/// Two URLs that agree in everything but path, query and fragment.
pub open spec fn same_address(a: UrlParts, b: UrlParts) -> bool {
    &&& a.scheme == b.scheme
    &&& a.host == b.host
    &&& a.port == b.port
    &&& a.known_port == b.known_port
}

/// A character that stands for itself wherever it occurs in a path.
pub open spec fn is_simple_char(c: char) -> bool {
    ||| 'a' <= c <= 'z'
    ||| 'A' <= c <= 'Z'
    ||| '0' <= c <= '9'
    ||| c == '.'
    ||| c == '_'
    ||| c == '-'
}

/// A file name that stands for itself as a path segment.
pub open spec fn is_simple_name(name: Seq<char>) -> bool {
    &&& name.len() > 0
    &&& name != seq!['.']
    &&& name != seq!['.', '.']
    &&& forall|i: int| 0 <= i < name.len() ==> is_simple_char(#[trigger] name[i])
}

/// A relative reference made of simple names only, such as `tiles/0/0.b3dm`.
pub open spec fn is_simple_reference(reference: Seq<char>) -> bool {
    forall|i: int|
        0 <= i < text::split(reference, '/').len() ==> is_simple_name(
            #[trigger] text::split(reference, '/')[i],
        )
}

/// `result` is the URL `base` with `reference` in place of what follows the last
/// slash of its path, without query and fragment.
pub open spec fn replaces_last_segment(
    base: UrlParts,
    reference: Seq<char>,
    result: core::result::Result<UrlParts, Seq<char>>,
) -> bool {
    &&& result matches Ok(url)
    &&& same_address(url, base)
    &&& url.path == directory(base.path) + reference
    &&& url.query is None
    &&& url.fragment is None
}

/// What came out is sound, if anything did.
pub open spec fn all_sound(result: core::result::Result<UrlParts, Seq<char>>) -> bool {
    result matches Ok(url) ==> is_sound(url)
}

/// What a result stands for.
pub open spec fn parts_of(result: core::result::Result<Url, String>) -> core::result::Result<
    UrlParts,
    Seq<char>,
> {
    match result {
        Ok(url) => Ok(url@),
        Err(message) => Err(message@),
    }
}

/// An optional string as an optional text.
pub open spec fn optional_text(string: Option<String>) -> Option<Seq<char>> {
    match string {
        Some(s) => Some(s@),
        None => None,
    }
}

/// An optional string slice as an optional text.
pub open spec fn optional_str(string: Option<&str>) -> Option<Seq<char>> {
    match string {
        Some(s) => Some(s@),
        None => None,
    }
}

/// `url::Url`, a parsed URL of the `url` crate.
#[verifier::external_type_specification]
#[verifier::external_body]
pub struct ExOutsideUrl(OutsideUrl);

/// The `Clone` of `url::Url`, which its `derive` wrote: the copy is the same URL.
pub assume_specification[ <OutsideUrl as Clone>::clone ](value: &OutsideUrl) -> (copy: OutsideUrl)
    ensures
        copy == *value,
;

/// An absolute URL.
#[derive(Debug)]
pub struct Url {
    /// The URL that the other fields were read from.
    inner: OutsideUrl,
    text: String,
    scheme: String,
    host: Option<String>,
    port: Option<u16>,
    known_port: Option<u16>,
    path: String,
    query: Option<String>,
    fragment: Option<String>,
}

impl View for Url {
    type V = UrlParts;

    closed spec fn view(&self) -> UrlParts {
        UrlParts {
            text: self.text@,
            scheme: self.scheme@,
            host: optional_text(self.host),
            port: self.port,
            known_port: self.known_port,
            path: self.path@,
            query: optional_text(self.query),
            fragment: optional_text(self.fragment),
        }
    }
}

impl Clone for Url {
    fn clone(&self) -> (copy: Url)
        ensures
            copy@ == self@,
    {
        self.duplicate()
    }
}

/// What parsing `input` owes its caller.
pub open spec fn parse_outcome(input: Seq<char>) -> core::result::Result<UrlParts, ErrorModel> {
    match parsed_url(input) {
        Ok(url) => Ok(url),
        Err(message) => Err(ErrorModel::Url { input, source: seq![message] }),
    }
}

/// What resolving `reference` against `base` owes its caller.
pub open spec fn join_outcome(base: UrlParts, reference: Seq<char>) -> core::result::Result<
    UrlParts,
    ErrorModel,
> {
    match joined_url(base.text, reference) {
        Ok(url) => Ok(url),
        Err(message) => Err(ErrorModel::Url { input: reference, source: seq![message] }),
    }
}

impl Url {
    /// Every URL is sound.
    #[verifier::type_invariant]
    pub open spec fn sound(self) -> bool {
        is_sound(self@)
    }

    /// Parses an absolute URL.
    pub fn parse(input: &str) -> (url: Result<Url>)
        ensures
            error::outcome(url) == parse_outcome(input@),
            url matches Ok(u) ==> is_sound(u@),
    {
        match parse_text(input) {
            Ok(url) => Ok(url),
            Err(message) => Err(
                Error::Url { input: input.to_owned(), source: Cause::single(message.as_str()) },
            ),
        }
    }

    /// Resolves `reference` against this URL.
    pub fn join(&self, reference: &str) -> (url: Result<Url>)
        ensures
            error::outcome(url) == join_outcome(self@, reference@),
            url matches Ok(u) ==> is_sound(u@),
            is_web_scheme(self@.scheme) && is_simple_reference(reference@)
                ==> replaces_last_segment(
                self@,
                reference@,
                joined_url(self@.text, reference@),
            ),
    {
        match join_text(self, reference) {
            Ok(url) => Ok(url),
            Err(message) => Err(
                Error::Url { input: reference.to_owned(), source: Cause::single(message.as_str()) },
            ),
        }
    }

    /// This URL with another path, made from its own.
    pub fn with_path(&self, path: &str) -> (url: Url)
        requires
            made_from_own(path@, self@.path),
            address_length(self@) + path_growth(self@, path@) <= u32::MAX,
        ensures
            url@ == url_with_path(self@.text, path@),
            is_sound(url@),
            is_web_scheme(self@.scheme) ==> {
                &&& same_address(url@, self@)
                &&& url@.path == path@
                &&& url@.query == self@.query
                &&& url@.fragment == self@.fragment
                &&& path@ == self@.path ==> url@ == self@
            },
    {
        set_path_text(self, path)
    }

    /// This URL without its query.
    pub fn without_query(&self) -> (url: Url)
        ensures
            url@ == url_without_query(self@.text),
            is_sound(url@),
            url@.query is None,
            is_web_scheme(self@.scheme) ==> {
                &&& same_address(url@, self@)
                &&& url@.path == self@.path
                &&& url@.fragment == self@.fragment
                &&& self@.query is None ==> url@ == self@
            },
    {
        clear_query_text(self)
    }

    /// This URL without its fragment.
    pub fn without_fragment(&self) -> (url: Url)
        ensures
            url@ == url_without_fragment(self@.text),
            is_sound(url@),
            url@.fragment is None,
            is_web_scheme(self@.scheme) ==> {
                &&& same_address(url@, self@)
                &&& url@.path == self@.path
                &&& url@.query == self@.query
                &&& self@.fragment is None ==> url@ == self@
            },
    {
        clear_fragment_text(self)
    }

    /// Whether this URL is at most `limit` characters long up to its last part that
    /// starts behind the path.
    pub fn address_fits(&self, limit: u32) -> (fits: bool)
        ensures
            fits == (address_length(self@) <= limit),
    {
        let tail: u128 = match (&self.query, &self.fragment) {
            (_, Some(fragment)) => fragment.as_str().unicode_len() as u128 + 1,
            (Some(query), None) => query.as_str().unicode_len() as u128 + 1,
            (None, None) => 0,
        };
        self.text.as_str().unicode_len() as u128 <= tail + limit as u128
    }

    /// A copy of this URL.
    pub fn duplicate(&self) -> (url: Url)
        ensures
            url@ == self@,
    {
        proof {
            use_type_invariant(self);
        }
        let host = duplicate_text(&self.host);
        let query = duplicate_text(&self.query);
        let fragment = duplicate_text(&self.fragment);
        assert(UrlParts {
            text: self.text@,
            scheme: self.scheme@,
            host: optional_text(host),
            port: self.port,
            known_port: self.known_port,
            path: self.path@,
            query: optional_text(query),
            fragment: optional_text(fragment),
        } == self@);
        Url {
            inner: self.inner.clone(),
            text: self.text.clone(),
            scheme: self.scheme.clone(),
            host,
            port: self.port,
            known_port: self.known_port,
            path: self.path.clone(),
            query,
            fragment,
        }
    }

    /// The whole serialisation.
    pub fn as_str(&self) -> (out: &str)
        ensures
            out@ == self@.text,
    {
        self.text.as_str()
    }

    /// The scheme, without the colon.
    pub fn scheme(&self) -> (out: &str)
        ensures
            out@ == self@.scheme,
    {
        self.scheme.as_str()
    }

    /// The host, if there is one.
    pub fn host_str(&self) -> (out: Option<&str>)
        ensures
            optional_str(out) == self@.host,
    {
        borrow_text(&self.host)
    }

    /// The port, where it is not the default of the scheme.
    pub fn port(&self) -> (out: Option<u16>)
        ensures
            out == self@.port,
    {
        self.port
    }

    /// The port, or the default of the scheme where one is known.
    pub fn port_or_known_default(&self) -> (out: Option<u16>)
        ensures
            out == self@.known_port,
    {
        self.known_port
    }

    /// The path, still percent-encoded.
    pub fn path(&self) -> (out: &str)
        ensures
            out@ == self@.path,
    {
        self.path.as_str()
    }

    /// The query, without the question mark.
    pub fn query(&self) -> (out: Option<&str>)
        ensures
            optional_str(out) == self@.query,
    {
        borrow_text(&self.query)
    }

    /// The fragment, without the hash.
    pub fn fragment(&self) -> (out: Option<&str>)
        ensures
            optional_str(out) == self@.fragment,
    {
        borrow_text(&self.fragment)
    }
}

/// A directory ends in its last slash.
pub proof fn lemma_directory(path: Seq<char>)
    ensures
        directory_length(path) <= path.len(),
        directory_length(path) > 0 <==> path.contains('/'),
        directory_length(path) > 0 ==> path[directory_length(path) - 1] == '/',
        forall|i: int| directory_length(path) <= i < path.len() ==> path[i] != '/',
    decreases path.len(),
{
    if path.len() > 0 {
        if path.last() == '/' {
            assert(path[path.len() - 1] == '/');
        } else {
            let front = path.drop_last();
            lemma_directory(front);
            if path.contains('/') {
                let i = choose|i: int| 0 <= i < path.len() && path[i] == '/';
                assert(front[i] == '/');
            }
            if front.contains('/') {
                let i = choose|i: int| 0 <= i < front.len() && front[i] == '/';
                assert(path[i] == '/');
            }
            assert forall|i: int| directory_length(path) <= i < path.len() implies path[i]
                != '/' by {
                if i < front.len() {
                    assert(front[i] != '/');
                }
            }
        }
    }
}

/// `path` up to and including its last slash.
pub fn directory_text(path: &str) -> (out: String)
    ensures
        out@ == directory(path@),
{
    let chars = text::chars_of(path);
    let mut end: usize = chars.len();
    assert(path@.take(end as int) =~= path@);
    while end > 0 && chars[end - 1] != '/'
        invariant
            end <= chars@.len(),
            chars@ == path@,
            directory_length(path@.take(end as int)) == directory_length(path@),
        decreases end,
    {
        assert(path@.take(end as int).drop_last() =~= path@.take(end - 1));
        end -= 1;
    }
    proof {
        lemma_directory(path@);
        reveal_strlit("/");
        assert("/"@ =~= seq!['/']);
        assert(path@.subrange(0, end as int) =~= path@.take(end as int));
    }
    if end == 0 {
        "/".to_owned()
    } else {
        text::text_of(&chars, 0, end)
    }
}

fn duplicate_text(string: &Option<String>) -> (out: Option<String>)
    ensures
        optional_text(out) == optional_text(*string),
{
    match string {
        Some(s) => Some(s.clone()),
        None => None,
    }
}

fn borrow_text(string: &Option<String>) -> (out: Option<&str>)
    ensures
        optional_str(out) == optional_text(*string),
{
    match string {
        Some(s) => Some(s.as_str()),
        None => None,
    }
}

/// `url::Url::parse`. The result is a function of the text. What it accepts is
/// sound: with the scheme `http` or `https`, it has a path that starts with a slash,
/// and where its serialisation is accepted in its turn, that gives the same parts.
#[verifier::external_body]
fn parse_text(input: &str) -> (out: core::result::Result<Url, String>)
    ensures
        parts_of(out) == parsed_url(input@),
        all_sound(parts_of(out)),
{
    let u = OutsideUrl::parse(input).map_err(|error| error.to_string())?;
    Ok(
        Url {
            text: u.as_str().to_owned(),
            scheme: u.scheme().to_owned(),
            host: u.host_str().map(str::to_owned),
            port: u.port(),
            known_port: u.port_or_known_default(),
            path: u.path().to_owned(),
            query: u.query().map(str::to_owned),
            fragment: u.fragment().map(str::to_owned),
            inner: u,
        },
    )
}

/// `url::Url::join`. The result is a function of the base (URLs of the crate compare
/// like their serialisation) and the reference, and is sound. Joined to a fetchable
/// URL, a reference of simple names replaces what follows the last slash of the path,
/// and drops query and fragment; that never fails, since nothing of the base is parsed
/// again.
#[verifier::external_body]
fn join_text(base: &Url, reference: &str) -> (out: core::result::Result<Url, String>)
    ensures
        parts_of(out) == joined_url(base@.text, reference@),
        all_sound(parts_of(out)),
        is_web_scheme(base@.scheme) && is_simple_reference(reference@) ==> replaces_last_segment(
            base@,
            reference@,
            parts_of(out),
        ),
{
    let u = base.inner.join(reference).map_err(|error| error.to_string())?;
    Ok(
        Url {
            text: u.as_str().to_owned(),
            scheme: u.scheme().to_owned(),
            host: u.host_str().map(str::to_owned),
            port: u.port(),
            known_port: u.port_or_known_default(),
            path: u.path().to_owned(),
            query: u.query().map(str::to_owned),
            fragment: u.fragment().map(str::to_owned),
            inner: u,
        },
    )
}

/// `url::Url::set_path`, for a path that is made from the URL's own. The result is
/// a function of the URL and the path, and is sound. Of a fetchable URL the path alone
/// changes: it is already normalised, so a directory above it, and the path itself with
/// a slash behind it, are taken as they are, and its own path changes nothing. The
/// crate keeps in 32 bits where the path ends and where query and fragment start, and
/// panics or loses count where one of these grows past `u32::MAX`; a path made from the
/// URL's own grows by three characters at most. It would also take a second slash at the
/// start of a path for the start of a host; no path that is admitted has one that the
/// URL's own path has not.
#[verifier::external_body]
fn set_path_text(base: &Url, path: &str) -> (url: Url)
    requires
        made_from_own(path@, base@.path),
        address_length(base@) + path_growth(base@, path@) <= u32::MAX,
    ensures
        url@ == url_with_path(base@.text, path@),
        is_sound(url@),
        is_web_scheme(base@.scheme) ==> {
            &&& same_address(url@, base@)
            &&& url@.path == path@
            &&& url@.query == base@.query
            &&& url@.fragment == base@.fragment
            &&& path@ == base@.path ==> url@ == base@
        },
{
    let mut u = base.inner.clone();
    u.set_path(path);
    Url {
        text: u.as_str().to_owned(),
        scheme: u.scheme().to_owned(),
        host: u.host_str().map(str::to_owned),
        port: u.port(),
        known_port: u.port_or_known_default(),
        path: u.path().to_owned(),
        query: u.query().map(str::to_owned),
        fragment: u.fragment().map(str::to_owned),
        inner: u,
    }
}

/// `url::Url::set_query` with `None`. The result is a function of the URL, is sound
/// and has no query. Nothing else of a fetchable URL changes.
#[verifier::external_body]
fn clear_query_text(base: &Url) -> (url: Url)
    ensures
        url@ == url_without_query(base@.text),
        is_sound(url@),
        url@.query is None,
        is_web_scheme(base@.scheme) ==> {
            &&& same_address(url@, base@)
            &&& url@.path == base@.path
            &&& url@.fragment == base@.fragment
            &&& base@.query is None ==> url@ == base@
        },
{
    let mut u = base.inner.clone();
    u.set_query(None);
    Url {
        text: u.as_str().to_owned(),
        scheme: u.scheme().to_owned(),
        host: u.host_str().map(str::to_owned),
        port: u.port(),
        known_port: u.port_or_known_default(),
        path: u.path().to_owned(),
        query: u.query().map(str::to_owned),
        fragment: u.fragment().map(str::to_owned),
        inner: u,
    }
}

/// `url::Url::set_fragment` with `None`. The result is a function of the URL, is sound
/// and has no fragment. Nothing else of a fetchable URL changes.
#[verifier::external_body]
fn clear_fragment_text(base: &Url) -> (url: Url)
    ensures
        url@ == url_without_fragment(base@.text),
        is_sound(url@),
        url@.fragment is None,
        is_web_scheme(base@.scheme) ==> {
            &&& same_address(url@, base@)
            &&& url@.path == base@.path
            &&& url@.query == base@.query
            &&& base@.fragment is None ==> url@ == base@
        },
{
    let mut u = base.inner.clone();
    u.set_fragment(None);
    Url {
        text: u.as_str().to_owned(),
        scheme: u.scheme().to_owned(),
        host: u.host_str().map(str::to_owned),
        port: u.port(),
        known_port: u.port_or_known_default(),
        path: u.path().to_owned(),
        query: u.query().map(str::to_owned),
        fragment: u.fragment().map(str::to_owned),
        inner: u,
    }
}

/// Only two schemes can be fetched: the four letters `http`, and these with an `s`.
pub proof fn law_two_schemes_are_fetched(scheme: Seq<char>)
    ensures
        is_web_scheme(scheme) <==> {
            &&& scheme.len() == 4 || scheme.len() == 5
            &&& scheme[0] == 'h'
            &&& scheme[1] == 't'
            &&& scheme[2] == 't'
            &&& scheme[3] == 'p'
            &&& scheme.len() == 5 ==> scheme[4] == 's'
        },
{
    reveal_strlit("http");
    reveal_strlit("https");
    if scheme.len() == 4 && scheme[0] == 'h' && scheme[1] == 't' && scheme[2] == 't' && scheme[3]
        == 'p' {
        assert(scheme =~= "http"@);
    }
    if scheme.len() == 5 && scheme[0] == 'h' && scheme[1] == 't' && scheme[2] == 't' && scheme[3]
        == 'p' && scheme[4] == 's' {
        assert(scheme =~= "https"@);
    }
}

/// The directory of a path is what comes up to and with its last slash: replacing the name
/// behind it, by any other without a slash, changes nothing. A path without a slash is in
/// the root directory.
pub proof fn law_directory_ends_at_the_last_slash(head: Seq<char>, name: Seq<char>)
    requires
        !name.contains('/'),
    ensures
        directory(head + seq!['/'] + name) == head + seq!['/'],
        directory(name) == seq!['/'],
{
    let folder = head + seq!['/'];
    let path = folder + name;
    assert(path[head.len() as int] == '/');
    lemma_directory(path);
    let n = directory_length(path) as int;
    if n > folder.len() {
        assert(path[n - 1] == name[n - 1 - folder.len()]);
        assert(name.contains(name[n - 1 - folder.len()]));
    }
    assert(path.take(n) =~= folder);
}

/// A URL that cannot be parsed or resolved is reported as it was written, with the
/// diagnostic of the parser; one that can is what the parser makes of it.
pub proof fn law_bad_urls_are_reported_verbatim(base: UrlParts, input: Seq<char>)
    ensures
        match parsed_url(input) {
            Ok(url) => parse_outcome(input) == Ok::<UrlParts, ErrorModel>(url),
            Err(message) => parse_outcome(input) matches Err(
                ErrorModel::Url { input: shown, source },
            ) && shown == input && source.len() == 1 && source[0] == message,
        },
        match joined_url(base.text, input) {
            Ok(url) => join_outcome(base, input) == Ok::<UrlParts, ErrorModel>(url),
            Err(message) => join_outcome(base, input) matches Err(
                ErrorModel::Url { input: shown, source },
            ) && shown == input && source.len() == 1 && source[0] == message,
        },
{
}

/// The length of an address is that of the whole URL without its last part: without the
/// fragment and its hash where there is one, or else without the query and its question mark.
pub proof fn law_address_ends_before_the_last_part(url: UrlParts)
    ensures
        url.fragment matches Some(fragment) ==> address_length(url) + 1 + fragment.len()
            == url.text.len(),
        url.fragment is None ==> (url.query matches Some(query) ==> address_length(url) + 1
            + query.len() == url.text.len()),
        url.fragment is None && url.query is None ==> address_length(url) == url.text.len(),
{
}

} // verus!
