//! Mapping between remote URLs and local, safe file paths.
//!
//! A 3D Tiles tileset is a *tree of relative URIs*. Reproducing that tree on
//! disk means trusting a remote document to name local files, which is exactly
//! the shape of a path-traversal bug. Everything in this module therefore
//! refuses rather than sanitises whenever a URI cannot be represented as a
//! plain nested file.
//!
//! A second, subtler rule: URIs are **never percent-decoded**. The local file
//! name is derived from the encoded form, so `%2E%2E%2F` stays a literal name on
//! disk instead of becoming `../`. The fetched URL keeps using the encoded form,
//! so the two stay in sync.
//!
//! Local paths are **relative to the folder that holds the entry
//! `tileset.json`**: a URL with the same origin whose path starts with that
//! folder keeps its in-base remainder, so the entry document and the files
//! beside it stay shallow. Anything else (a different host or port, or a path
//! that climbs above the tileset folder) is bucketed under
//! `_external/<host>[/<port>]/<full-url-path>`. The host is sanitised like a
//! file name, so even an IPv6 address becomes a safe directory name; it is
//! never fed to the segment validator, where its `:` would be rejected as an
//! unsafe segment.

use vstd::prelude::*;

use crate::error;
use crate::error::{Error, ErrorModel, Result};
use crate::local_path;
use crate::local_path::{LocalPath, Part, PathStyle};
use crate::text;
use crate::web_url;
use crate::web_url::{Url, UrlParts};

verus! {

/// The bucket for files that live outside the entry tileset's own folder.
pub const EXTERNAL_DIR: &'static str = "_external";

/// Names Windows refuses to use for files, case-insensitively and regardless of
/// extension. They are prefixed with `_` rather than rejected so a tileset that
/// happens to contain e.g. `aux.b3dm` still downloads.
pub open spec fn is_reserved_name(name: Seq<char>) -> bool {
    ||| name == "CON"@
    ||| name == "PRN"@
    ||| name == "AUX"@
    ||| name == "NUL"@
    ||| name == "COM1"@
    ||| name == "COM2"@
    ||| name == "COM3"@
    ||| name == "COM4"@
    ||| name == "COM5"@
    ||| name == "COM6"@
    ||| name == "COM7"@
    ||| name == "COM8"@
    ||| name == "COM9"@
    ||| name == "LPT1"@
    ||| name == "LPT2"@
    ||| name == "LPT3"@
    ||| name == "LPT4"@
    ||| name == "LPT5"@
    ||| name == "LPT6"@
    ||| name == "LPT7"@
    ||| name == "LPT8"@
    ||| name == "LPT9"@
}

/// Whether a file name is treated specially by Windows: its stem is a device
/// name, or it ends in a space or a dot.
pub open spec fn needs_escape(segment: Seq<char>) -> bool {
    ||| is_reserved_name(text::upper(text::before_either(segment, '.', '.')))
    ||| segment.len() > 0 && (segment.last() == ' ' || segment.last() == '.')
}

/// The file name of a path segment.
pub open spec fn sanitized(segment: Seq<char>) -> Seq<char> {
    if needs_escape(segment) {
        seq!['_'] + segment
    } else {
        segment
    }
}

/// The character that stands for `c` in the directory name of a host.
pub open spec fn host_char(c: char) -> char {
    if 'a' <= c <= 'z' || 'A' <= c <= 'Z' || '0' <= c <= '9' || c == '-' || c == '.' {
        c
    } else {
        '_'
    }
}

/// The directory name of a host.
pub open spec fn sanitized_host(host: Seq<char>) -> Seq<char> {
    if host.len() == 0 {
        sanitized(seq!['_'])
    } else {
        sanitized(host.map_values(|c: char| host_char(c)))
    }
}

/// A path segment that names nothing, and is left out.
pub open spec fn is_elided(segment: Seq<char>) -> bool {
    segment.len() == 0 || segment == seq!['.']
}

/// A path segment that cannot be a file name.
pub open spec fn is_unsafe(segment: Seq<char>) -> bool {
    segment == seq!['.', '.'] || segment.contains('\\') || segment.contains(':')
}

/// The segments that are not left out.
pub open spec fn kept_segments(segments: Seq<Seq<char>>) -> Seq<Seq<char>>
    decreases segments.len(),
{
    if segments.len() == 0 {
        Seq::empty()
    } else if is_elided(segments.last()) {
        kept_segments(segments.drop_last())
    } else {
        kept_segments(segments.drop_last()).push(segments.last())
    }
}

/// Some segment of the path cannot be a file name.
pub open spec fn has_unsafe(segments: Seq<Seq<char>>) -> bool {
    exists|i: int| 0 <= i < segments.len() && is_unsafe(#[trigger] segments[i])
}

/// The file names of a list of segments.
pub open spec fn file_names(segments: Seq<Seq<char>>) -> Seq<Seq<char>> {
    kept_segments(segments).map_values(|s: Seq<char>| sanitized(s))
}

/// The relative path that a URL path maps to, where every segment is safe.
pub open spec fn mapped(path: Seq<char>) -> Seq<char> {
    text::join(file_names(text::split(path, '/')), '/')
}

/// Two URLs with the same scheme, host and port.
pub open spec fn same_origin(a: UrlParts, b: UrlParts) -> bool {
    &&& a.scheme == b.scheme
    &&& a.host == b.host
    &&& a.known_port == b.known_port
}

/// Whether a URL lies in the folder `base`.
pub open spec fn in_folder(url: UrlParts, base: UrlParts) -> bool {
    same_origin(url, base) && text::starts_with(url.path, base.path)
}

/// The directories that hold the files of one foreign host and port.
pub open spec fn external_names(url: UrlParts) -> Seq<Seq<char>> {
    let host = match url.host {
        Some(host) => host,
        None => Seq::empty(),
    };
    let names = seq![EXTERNAL_DIR@, sanitized_host(host)];
    match url.port {
        Some(port) => names.push(text::decimal(port as nat)),
        None => names,
    }
}

/// Where the file behind `url` belongs, relative to the output directory, when the
/// entry document lies in the folder `base`.
pub open spec fn output_path(url: UrlParts, base: UrlParts) -> core::result::Result<
    Seq<char>,
    ErrorModel,
> {
    let refusal = ErrorModel::UnsafeUri { uri: url.text };
    if in_folder(url, base) {
        let remainder = url.path.skip(base.path.len() as int);
        let segments = text::split(remainder, '/');
        if has_unsafe(segments) || kept_segments(segments).len() == 0 {
            Err(refusal)
        } else {
            Ok(mapped(remainder))
        }
    } else if has_unsafe(text::split(url.path, '/')) {
        Err(refusal)
    } else {
        Ok(text::join(external_names(url), '/').push('/') + mapped(url.path))
    }
}

fn is_reserved(name: &str) -> (out: bool)
    ensures
        out == is_reserved_name(name@),
{
    text::same_text(name, "CON") || text::same_text(name, "PRN") || text::same_text(name, "AUX")
        || text::same_text(name, "NUL") || text::same_text(name, "COM1") || text::same_text(
        name,
        "COM2",
    ) || text::same_text(name, "COM3") || text::same_text(name, "COM4") || text::same_text(
        name,
        "COM5",
    ) || text::same_text(name, "COM6") || text::same_text(name, "COM7") || text::same_text(
        name,
        "COM8",
    ) || text::same_text(name, "COM9") || text::same_text(name, "LPT1") || text::same_text(
        name,
        "LPT2",
    ) || text::same_text(name, "LPT3") || text::same_text(name, "LPT4") || text::same_text(
        name,
        "LPT5",
    ) || text::same_text(name, "LPT6") || text::same_text(name, "LPT7") || text::same_text(
        name,
        "LPT8",
    ) || text::same_text(name, "LPT9")
}

/// Escapes the handful of names Windows treats specially.
pub fn sanitize_segment(segment: &str) -> (out: String)
    ensures
        out@ == sanitized(segment@),
{
    let stem = text::ascii_upper(text::text_before_either(segment, '.', '.').as_str());
    let chars = text::chars_of(segment);
    let escape = is_reserved(stem.as_str()) || (chars.len() > 0 && (chars[chars.len() - 1] == ' '
        || chars[chars.len() - 1] == '.'));
    if escape {
        let mut out = String::new();
        out.push('_');
        out.append(segment);
        assert(out@ =~= seq!['_'] + segment@);
        out
    } else {
        segment.to_owned()
    }
}

/// Turns a URL host into a safe single directory name for the `_external`
/// bucket. ASCII alphanumerics, `-`, and `.` survive; every other character,
/// including the `:` and `[`/`]` of an IPv6 host, becomes `_`, and an empty
/// result becomes `"_"`. The result is then escaped like any file name, so a
/// reserved Windows device name cannot appear as a host directory.
pub fn sanitize_host(host: &str) -> (out: String)
    ensures
        out@ == sanitized_host(host@),
{
    let mut name = String::new();
    for c in iter: host.chars()
        invariant
            name@ == host@.take(iter.index()).map_values(|c: char| host_char(c)),
            iter.seq() == host@,
    {
        let ghost n = iter.index();
        let mapped: char = if ('a' <= c && c <= 'z') || ('A' <= c && c <= 'Z') || ('0' <= c && c
            <= '9') || c == '-' || c == '.' {
            c
        } else {
            '_'
        };
        name.push(mapped);
        assert(host@.take(n + 1).map_values(|c: char| host_char(c)) =~= host@.take(n).map_values(
            |c: char| host_char(c),
        ).push(mapped));
    }
    assert(host@.take(host@.len() as int) =~= host@);
    if host.is_empty() {
        name = String::new();
        name.push('_');
        assert(name@ =~= seq!['_']);
    }
    sanitize_segment(name.as_str())
}

/// The file name of a safe segment is a plain name.
proof fn lemma_sanitized_is_plain(segment: Seq<char>)
    requires
        !is_elided(segment),
        !is_unsafe(segment),
        !segment.contains('/'),
    ensures
        local_path::is_plain_name(sanitized(segment)),
{
    let escaped = seq!['_'] + segment;
    assert(escaped[0] == '_');
    if escaped.contains('/') {
        let i = choose|i: int| 0 <= i < escaped.len() && escaped[i] == '/';
        assert(segment[i - 1] == '/');
    }
}

/// The file names of safe segments are plain names.
proof fn lemma_file_names_are_plain(segments: Seq<Seq<char>>)
    requires
        !has_unsafe(segments),
        forall|i: int| 0 <= i < segments.len() ==> !(#[trigger] segments[i]).contains('/'),
    ensures
        file_names(segments).len() == kept_segments(segments).len(),
        forall|i: int|
            0 <= i < file_names(segments).len() ==> local_path::is_plain_name(
                #[trigger] file_names(segments)[i],
            ),
    decreases segments.len(),
{
    if segments.len() > 0 {
        let front = segments.drop_last();
        assert forall|i: int| 0 <= i < front.len() implies !is_unsafe(#[trigger] front[i]) by {
            assert(!is_unsafe(segments[i]));
        }
        lemma_file_names_are_plain(front);
        let last = segments.last();
        assert(last == segments[segments.len() - 1]);
        if !is_elided(last) {
            lemma_sanitized_is_plain(last);
            assert(file_names(segments) =~= file_names(front).push(sanitized(last)));
        }
    }
}

proof fn lemma_digit_is_plain(n: nat)
    ensures
        local_path::is_plain_name(text::decimal(n)),
        forall|i: int|
            0 <= i < text::decimal(n).len() ==> '0' <= #[trigger] text::decimal(n)[i] <= '9',
    decreases n,
{
    if n >= 10 {
        lemma_digit_is_plain(n / 10);
    }
    let digits = text::decimal(n);
    assert(digits.len() > 0);
    assert('0' <= digits[0] <= '9');
}

proof fn lemma_host_is_plain(host: Seq<char>)
    ensures
        local_path::is_plain_name(sanitized_host(host)),
{
    let name = if host.len() == 0 {
        seq!['_']
    } else {
        host.map_values(|c: char| host_char(c))
    };
    assert forall|i: int| 0 <= i < name.len() implies #[trigger] name[i] != '/' && name[i] != ':'
        && name[i] != '\\' by {
        if host.len() > 0 {
            assert(name[i] == host_char(host[i]));
        }
    }
    if name == seq!['.'] || name == seq!['.', '.'] {
        assert(name.last() == '.');
        let escaped = seq!['_'] + name;
        assert(escaped[0] == '_');
        assert(!escaped.contains('/'));
    } else {
        lemma_sanitized_is_plain(name);
    }
}

/// The directories of a foreign host are plain names.
proof fn lemma_external_names_are_plain(url: UrlParts)
    ensures
        external_names(url).len() > 0,
        forall|i: int|
            0 <= i < external_names(url).len() ==> local_path::is_plain_name(
                #[trigger] external_names(url)[i],
            ),
{
    reveal_strlit("_external");
    let host = match url.host {
        Some(host) => host,
        None => Seq::empty(),
    };
    lemma_host_is_plain(host);
    assert(EXTERNAL_DIR@[0] == '_');
    assert(local_path::is_plain_name(EXTERNAL_DIR@));
    if let Some(port) = url.port {
        lemma_digit_is_plain(port as nat);
    }
}

/// Joined names after joined names are joined names.
proof fn lemma_join_both(left: Seq<Seq<char>>, right: Seq<Seq<char>>)
    requires
        left.len() > 0,
        right.len() > 0,
    ensures
        text::join(left, '/').push('/') + text::join(right, '/') == text::join(left + right, '/'),
    decreases right.len(),
{
    let head = text::join(left, '/').push('/');
    assert((left + right).drop_last() =~= left + right.drop_last());
    assert((left + right).last() == right.last());
    if right.len() == 1 {
        assert(left + right.drop_last() =~= left);
    } else {
        lemma_join_both(left, right.drop_last());
        assert(head + (text::join(right.drop_last(), '/').push('/') + right.last()) =~= (head
            + text::join(right.drop_last(), '/')).push('/') + right.last());
    }
}

/// The names of the components that a URL is mapped to, where it is mapped at all.
pub open spec fn output_names(url: UrlParts, base: UrlParts) -> Seq<Seq<char>> {
    if in_folder(url, base) {
        file_names(text::split(url.path.skip(base.path.len() as int), '/'))
    } else {
        external_names(url) + file_names(text::split(url.path, '/'))
    }
}

/// Nothing is written outside the output directory: whatever the URL, its local
/// path is refused, or it is made of names only, so that below any root directory
/// it names an entry inside that directory.
pub proof fn law_output_stays_inside(url: UrlParts, base: UrlParts, root: Seq<char>)
    ensures
        output_path(url, base) matches Ok(path) ==> {
            &&& local_path::is_nested(path)
            &&& local_path::parts(path) == output_names(url, base).map_values(
                |name: Seq<char>| Part::Name(name),
            )
            &&& local_path::parts(local_path::pushed(root, path)) == local_path::parts(root)
                + local_path::parts(path)
        },
{
    if let Ok(path) = output_path(url, base) {
        let rest = if in_folder(url, base) {
            url.path.skip(base.path.len() as int)
        } else {
            url.path
        };
        let segments = text::split(rest, '/');
        text::lemma_pieces_free_of_separator(rest, '/');
        lemma_file_names_are_plain(segments);
        let inner = file_names(segments);
        if in_folder(url, base) {
            local_path::law_joined_names_are_components(inner);
        } else {
            lemma_external_names_are_plain(url);
            let outer = external_names(url);
            let all = outer + inner;
            assert forall|i: int| 0 <= i < all.len() implies local_path::is_plain_name(
                #[trigger] all[i],
            ) by {
                if i >= outer.len() {
                    assert(all[i] == inner[i - outer.len()]);
                }
            }
            local_path::law_joined_names_are_components(all);
            if inner.len() == 0 {
                assert(all =~= outer);
                assert(path =~= text::join(outer, '/').push('/'));
                local_path::lemma_trailing_slash(text::join(outer, '/'));
            } else {
                lemma_join_both(outer, inner);
            }
        }
        local_path::law_nested_stays_inside(root, path);
    }
}

/// Maps the path segments of `path` into a relative path, validating each one.
///
/// This is the validation core shared by the in-base and `_external` branches:
/// empty segments and `.` are elided, `..` and any segment containing `\` or
/// `:` are rejected, and everything else is escaped with [`sanitize_segment`].
/// `url` is used only for error messages.
fn map_segments(path: &str, url: &Url) -> (out: Result<LocalPath>)
    ensures
        error::outcome(out) == (if has_unsafe(text::split(path@, '/')) {
            Err::<Seq<char>, ErrorModel>(ErrorModel::UnsafeUri { uri: url@.text })
        } else {
            Ok::<Seq<char>, ErrorModel>(mapped(path@))
        }),
{
    let pieces = text::split_text(path, '/');
    let ghost segments = text::split(path@, '/');
    let mut relative = LocalPath::from_text("");
    proof {
        text::lemma_pieces_free_of_separator(path@, '/');
        reveal_strlit("");
        reveal_strlit(".");
        reveal_strlit("..");
        assert("."@ =~= seq!['.']);
        assert(".."@ =~= seq!['.', '.']);
        assert(relative@ =~= text::join(file_names(segments.take(0)), '/'));
    }
    let mut i: usize = 0;
    while i < pieces.len()
        invariant
            i <= pieces.len(),
            text::texts(pieces@) == segments,
            segments == text::split(path@, '/'),
            forall|j: int| 0 <= j < segments.len() ==> !(#[trigger] segments[j]).contains('/'),
            !has_unsafe(segments.take(i as int)),
            relative@ == text::join(file_names(segments.take(i as int)), '/'),
            "."@ == seq!['.'],
            ".."@ == seq!['.', '.'],
        decreases pieces.len() - i,
    {
        let segment = pieces[i].as_str();
        let ghost front = segments.take(i as int);
        let ghost next = segments.take(i + 1);
        proof {
            assert(segment@ == segments[i as int]);
            assert(next.drop_last() =~= front);
            assert(next.last() == segment@);
        }
        let elided = segment.is_empty() || text::same_text(segment, ".");
        if !elided {
            if text::same_text(segment, "..") || text::has_char(segment, '\\') || text::has_char(
                segment,
                ':',
            ) {
                assert(is_unsafe(segments[i as int]));
                return Err(Error::UnsafeUri { uri: url.as_str().to_owned() });
            }
            let name = sanitize_segment(segment);
            proof {
                lemma_file_names_are_plain(front);
                lemma_sanitized_is_plain(segment@);
                local_path::lemma_push_name(file_names(front), name@);
                assert(file_names(next) =~= file_names(front).push(name@));
            }
            relative.push(name.as_str());
        }
        proof {
            assert forall|j: int| 0 <= j < next.len() implies !is_unsafe(#[trigger] next[j]) by {
                if j < i {
                    assert(next[j] == front[j]);
                }
            }
        }
        i += 1;
    }
    assert(segments.take(segments.len() as int) =~= segments);
    Ok(relative)
}

fn same_optional(a: Option<&str>, b: Option<&str>) -> (out: bool)
    ensures
        out == (web_url::optional_str(a) == web_url::optional_str(b)),
{
    match (a, b) {
        (Some(x), Some(y)) => text::same_text(x, y),
        (None, None) => true,
        _ => false,
    }
}

fn same_port(a: Option<u16>, b: Option<u16>) -> (out: bool)
    ensures
        out == (a == b),
{
    match (a, b) {
        (Some(x), Some(y)) => x == y,
        (None, None) => true,
        _ => false,
    }
}

/// Turns a resolved content URL into the path (relative to the output directory)
/// that it should be written to.
///
/// The local path mirrors the URL *relative to the folder that holds the entry
/// `tileset.json`*: when `url` shares `base`'s origin and its path starts with
/// `base`'s (which always ends in `/`, so this is a segment boundary), the
/// in-base remainder is kept, so the entry document itself is shallow.
/// Anything outside that folder is bucketed under
/// `_external/<host>[/<port>]/<full-url-path>`, where a non-default port is
/// its own segment.
///
/// Segments are rejected, not rewritten, when they are `..`, contain a
/// backslash, or contain a colon (`C:` drive prefix, NTFS alternate data
/// stream). Empty segments and `.` are elided, which also collapses duplicate
/// slashes.
pub fn relative_output_path(url: &Url, base: &Url) -> (out: Result<LocalPath>)
    ensures
        error::outcome(out) == output_path(url@, base@),
        out matches Ok(path) ==> local_path::is_nested(path@),
{
    proof {
        law_output_stays_inside(url@, base@, Seq::empty());
    }
    let one_origin = text::same_text(url.scheme(), base.scheme()) && same_optional(
        url.host_str(),
        base.host_str(),
    ) && same_port(url.port_or_known_default(), base.port_or_known_default());
    let path = text::chars_of(url.path());
    let folder = text::chars_of(base.path());
    assert(url@.path.skip(0) =~= url@.path);
    if one_origin && text::matches_at(&path, 0, &folder) {
        let remainder = text::text_of(&path, folder.len(), path.len());
        assert(remainder@ =~= url@.path.skip(base@.path.len() as int));
        let relative = map_segments(remainder.as_str(), url)?;
        proof {
            let segments = text::split(remainder@, '/');
            text::lemma_pieces_free_of_separator(remainder@, '/');
            lemma_file_names_are_plain(segments);
            if kept_segments(segments).len() > 0 {
                local_path::lemma_join_starts(file_names(segments), '/');
                assert(local_path::is_plain_name(file_names(segments)[0]));
            }
        }
        if relative.is_empty() {
            // A URL equal to the base directory is a folder, not a file.
            return Err(Error::UnsafeUri { uri: url.as_str().to_owned() });
        }
        return Ok(relative);
    }
    proof {
        lemma_external_names_are_plain(url@);
        reveal_strlit("");
    }
    let host = match url.host_str() {
        Some(host) => sanitize_host(host),
        None => sanitize_host(""),
    };
    let ghost outer = external_names(url@);
    let mut external = LocalPath::from_text(EXTERNAL_DIR);
    proof {
        assert(""@ =~= Seq::<char>::empty());
        assert(outer[0] == EXTERNAL_DIR@ && outer[1] == host@);
        assert(local_path::is_plain_name(outer[0]) && local_path::is_plain_name(outer[1]));
        local_path::lemma_push_name(seq![EXTERNAL_DIR@], host@);
        assert(seq![EXTERNAL_DIR@].push(host@) =~= seq![EXTERNAL_DIR@, host@]);
    }
    external.push(host.as_str());
    if let Some(port) = url.port() {
        let number = text::decimal_text(port as u64);
        proof {
            let names = seq![EXTERNAL_DIR@, host@];
            assert(outer =~= names.push(number@));
            assert(local_path::is_plain_name(outer[2]));
            local_path::lemma_push_name(names, number@);
        }
        external.push(number.as_str());
    }
    assert(external@ == text::join(outer, '/'));
    let inner = map_segments(url.path(), url)?;
    proof {
        let segments = text::split(url@.path, '/');
        text::lemma_pieces_free_of_separator(url@.path, '/');
        lemma_file_names_are_plain(segments);
        if kept_segments(segments).len() > 0 {
            local_path::law_joined_names_are_components(file_names(segments));
        }
        assert(!local_path::is_absolute(inner@));
        assert(local_path::is_plain_name(outer.last()));
        local_path::lemma_join_ends(outer, '/');
        assert(outer.last().contains(outer.last().last()));
    }
    external.push(inner.as_str());
    Ok(external)
}

/// Joining is refused for an empty path and for one that the system does not read as
/// names only. What is joined is joined by a slash, which every system reads as a
/// separator.
pub open spec fn within(
    root: Seq<char>,
    relative: Seq<char>,
    style: PathStyle,
) -> core::result::Result<Seq<char>, ErrorModel> {
    if relative.len() > 0 && local_path::is_names_only(relative, style) {
        Ok(local_path::pushed(root, relative))
    } else {
        Err(ErrorModel::UnsafeUri { uri: relative })
    }
}

/// Joins a validated relative path onto the output root.
///
/// The relative path is validated again, component by component as the system reads
/// it, so even a path that arrives from somewhere other than [`relative_output_path`]
/// cannot escape.
pub fn join_within(root: &LocalPath, relative: &LocalPath, style: PathStyle) -> (out: Result<
    LocalPath,
>)
    ensures
        error::outcome(out) == within(root@, relative@, style),
{
    if relative.is_empty() || !relative.is_names_only(style) {
        return Err(Error::UnsafeUri { uri: relative.as_str().to_owned() });
    }
    Ok(root.join(relative))
}

/// Whether a text is free of what only some systems read as part of a path's
/// structure.
spec fn is_portable(text: Seq<char>) -> bool {
    !text.contains('\\') && !text.contains(':')
}

proof fn lemma_join_is_portable(names: Seq<Seq<char>>)
    requires
        forall|i: int| 0 <= i < names.len() ==> is_portable(#[trigger] names[i]),
    ensures
        is_portable(text::join(names, '/')),
    decreases names.len(),
{
    if names.len() > 0 {
        let front = names.drop_last();
        lemma_join_is_portable(front);
        let whole = text::join(names, '/');
        let head = text::join(front, '/');
        let last = names[names.len() - 1];
        assert(is_portable(last));
        assert forall|i: int| 0 <= i < whole.len() implies #[trigger] whole[i] != '\\' && whole[i]
            != ':' by {
            if names.len() == 1 {
                assert(last.contains(whole[i]));
            } else if i < head.len() {
                assert(head.contains(whole[i]));
            } else if i > head.len() {
                assert(last.contains(whole[i]));
            }
        }
    }
}

proof fn lemma_file_names_are_portable(segments: Seq<Seq<char>>)
    requires
        !has_unsafe(segments),
    ensures
        forall|i: int|
            0 <= i < file_names(segments).len() ==> is_portable(#[trigger] file_names(segments)[i]),
{
    assert forall|i: int| 0 <= i < file_names(segments).len() implies is_portable(
        #[trigger] file_names(segments)[i],
    ) by {
        lemma_kept_from(segments, i);
        let j = choose|j: int|
            0 <= j < segments.len() && kept_segments(segments)[i] == #[trigger] segments[j];
        assert(!is_unsafe(segments[j]));
        lemma_sanitized_is_portable(segments[j]);
    }
}

proof fn lemma_sanitized_is_portable(segment: Seq<char>)
    requires
        is_portable(segment),
    ensures
        is_portable(sanitized(segment)),
{
    let escaped = seq!['_'] + segment;
    assert forall|i: int| 0 <= i < escaped.len() implies #[trigger] escaped[i] != '\\'
        && escaped[i] != ':' by {
        if i > 0 {
            assert(segment.contains(escaped[i]));
        }
    }
}

proof fn lemma_external_names_are_portable(url: UrlParts)
    ensures
        forall|i: int|
            0 <= i < external_names(url).len() ==> is_portable(#[trigger] external_names(url)[i]),
{
    reveal_strlit("_external");
    assert(is_portable(EXTERNAL_DIR@));
    let host = match url.host {
        Some(host) => host,
        None => Seq::empty(),
    };
    let name = if host.len() == 0 {
        seq!['_']
    } else {
        host.map_values(|c: char| host_char(c))
    };
    assert forall|i: int| 0 <= i < name.len() implies #[trigger] name[i] != ':' && name[i]
        != '\\' by {
        if host.len() > 0 {
            assert(name[i] == host_char(host[i]));
        }
    }
    lemma_sanitized_is_portable(name);
    if let Some(port) = url.port {
        lemma_digit_is_plain(port as nat);
    }
}

/// A local path holds nothing that only some systems read as part of its structure.
proof fn lemma_output_is_portable(url: UrlParts, base: UrlParts)
    ensures
        output_path(url, base) matches Ok(path) ==> is_portable(path),
{
    if let Ok(path) = output_path(url, base) {
        let rest = if in_folder(url, base) {
            url.path.skip(base.path.len() as int)
        } else {
            url.path
        };
        let inner = file_names(text::split(rest, '/'));
        lemma_file_names_are_portable(text::split(rest, '/'));
        lemma_join_is_portable(inner);
        if !in_folder(url, base) {
            lemma_external_names_are_portable(url);
            lemma_join_is_portable(external_names(url));
            let head = text::join(external_names(url), '/');
            let tail = text::join(inner, '/');
            assert forall|i: int| 0 <= i < path.len() implies #[trigger] path[i] != '\\' && path[i]
                != ':' by {
                if i < head.len() {
                    assert(head.contains(path[i]));
                } else if i > head.len() {
                    assert(tail.contains(path[i]));
                }
            }
        }
    }
}

/// What was mapped is never refused when it is joined onto the output directory,
/// whatever the system: every system reads the same components from it.
pub proof fn law_output_is_accepted(
    url: UrlParts,
    base: UrlParts,
    root: Seq<char>,
    style: PathStyle,
)
    ensures
        output_path(url, base) matches Ok(path) ==> {
            &&& local_path::slashed(path, style) == path
            &&& within(root, path, style) == Ok::<Seq<char>, ErrorModel>(
                local_path::pushed(root, path),
            )
        },
{
    law_output_stays_inside(url, base, root);
    lemma_output_is_portable(url, base);
    if let Ok(path) = output_path(url, base) {
        if path.len() == 0 {
            let pieces = text::split(path, '/');
            assert(pieces.drop_last() =~= Seq::<Seq<char>>::empty());
            assert(local_path::pieces_parts(pieces.drop_last()) =~= Seq::<Part>::empty());
            assert(local_path::parts(path) =~= Seq::<Part>::empty());
        }
        assert forall|i: int| 0 <= i < path.len() implies #[trigger] path[i] != '\\' && path[i]
            != ':' by {
            assert(path.contains(path[i]));
        }
        assert(local_path::slashed(path, style) =~= path);
    }
}

/// Resolves a possibly relative URI from a tileset against its base URL.
///
/// A leading `/` means "host root", `../` climbs one level, and anything that
/// parses as an absolute URL wins. This is plain RFC 3986 reference resolution,
/// delegated to [`Url::join`] so we do not reimplement it badly.
pub fn resolve(base: &Url, reference: &str) -> (url: Result<Url>)
    ensures
        error::outcome(url) == web_url::join_outcome(base@, reference@),
        web_url::is_web_scheme(base@.scheme) && web_url::is_simple_reference(reference@)
            ==> web_url::replaces_last_segment(
            base@,
            reference@,
            web_url::joined_url(base@.text, reference@),
        ),
{
    base.join(reference)
}

/// Whether a URL looks like a document rather than a directory.
pub open spec fn names_a_document(path: Seq<char>) -> bool {
    text::ends_with(text::lower(path), ".json"@)
}

/// A path with a slash at its end.
pub open spec fn with_slash(path: Seq<char>) -> Seq<char> {
    if path.len() > 0 && path.last() == '/' {
        path
    } else {
        path.push('/')
    }
}

/// The URL of a directory, with a slash at the end of its path.
pub open spec fn directory_url(url: UrlParts) -> UrlParts {
    if url.path.len() > 0 && url.path.last() == '/' {
        url
    } else {
        web_url::url_with_path(url.text, url.path.push('/'))
    }
}

/// A slash that has to be added to the path of a URL fits its representation.
pub open spec fn slash_fits(url: UrlParts) -> bool {
    web_url::is_web_scheme(url.scheme) && !names_a_document(url.path) && with_slash(url.path)
        != url.path ==> web_url::address_length(url) < u32::MAX
}

/// The entry document of a tileset at `url`. Joining the name of a file never
/// fails.
pub open spec fn entry_document(url: UrlParts) -> core::result::Result<UrlParts, ErrorModel> {
    if !web_url::is_web_scheme(url.scheme) {
        Err(ErrorModel::UnsupportedScheme { scheme: url.scheme })
    } else if names_a_document(url.path) {
        Ok(url)
    } else {
        Ok(web_url::joined_url(directory_url(url).text, "tileset.json"@)->Ok_0)
    }
}

/// `document` is the file `tileset.json` in the directory that `url` names.
pub open spec fn is_tileset_in(document: UrlParts, url: UrlParts) -> bool {
    &&& web_url::same_address(document, url)
    &&& document.path == with_slash(url.path) + "tileset.json"@
    &&& document.query is None
    &&& document.fragment is None
}

/// A URL that can be fetched, and names a document: the entry document of itself.
pub open spec fn is_entry(url: UrlParts) -> bool {
    &&& web_url::is_web_scheme(url.scheme)
    &&& names_a_document(url.path)
    &&& web_url::is_sound(url)
}

/// Normalising again changes nothing: the entry document that a URL was normalised to
/// is normalised to itself, where its serialisation is accepted as a URL at all.
pub proof fn law_entry_is_kept(entry: UrlParts)
    requires
        is_entry(entry),
    ensures
        entry_document(entry) == Ok::<UrlParts, ErrorModel>(entry),
        web_url::parsed_url(entry.text) matches Ok(again) ==> entry_document(again) == Ok::<
            UrlParts,
            ErrorModel,
        >(entry),
{
}

proof fn lemma_tileset_is_a_document(path: Seq<char>)
    ensures
        names_a_document(path + "tileset.json"@),
{
    reveal_strlit("tileset.json");
    reveal_strlit(".json");
    let whole = path + "tileset.json"@;
    let lowered = text::lower(whole);
    assert(lowered.skip(lowered.len() - 5) =~= ".json"@);
}

/// The entry document of a parsed URL: the URL itself where its path ends in
/// `.json`, and `tileset.json` in the directory it names otherwise.
pub fn entry_url(url: Url) -> (document: Result<Url>)
    requires
        slash_fits(url@),
    ensures
        error::outcome(document) == entry_document(url@),
        web_url::is_web_scheme(url@.scheme) ==> document is Ok,
        web_url::is_web_scheme(url@.scheme) && !names_a_document(url@.path) ==> (
        document matches Ok(d) && is_tileset_in(d@, url@)),
        document matches Ok(d) ==> is_entry(d@),
        document is Err <==> url@.scheme != "http"@ && url@.scheme != "https"@,
        document matches Ok(d) ==> {
            let path = url@.path;
            let json = path.len() >= 5 && path[path.len() - 5] == '.' && (path[path.len() - 4]
                == 'j' || path[path.len() - 4] == 'J') && (path[path.len() - 3] == 's'
                || path[path.len() - 3] == 'S') && (path[path.len() - 2] == 'o' || path[path.len()
                - 2] == 'O') && (path[path.len() - 1] == 'n' || path[path.len() - 1] == 'N');
            &&& json ==> d@ == url@
            &&& !json ==> is_tileset_in(d@, url@)
        },
{
    proof {
        use_type_invariant(&url);
        law_documents_end_in_json(url@.path);
    }
    if !text::same_text(url.scheme(), "http") && !text::same_text(url.scheme(), "https") {
        return Err(Error::UnsupportedScheme { scheme: url.scheme().to_owned() });
    }
    let lowered = text::ascii_lower(url.path());
    if text::has_suffix(lowered.as_str(), ".json") {
        return Ok(url);
    }
    let chars = text::chars_of(url.path());
    let folder = if chars.len() > 0 && chars[chars.len() - 1] == '/' {
        url.duplicate()
    } else {
        // Without the slash, joining would drop the last segment, and turn `/tiles`
        // into `/tileset.json` instead of `/tiles/tileset.json`.
        let mut path = url.path().to_owned();
        path.push('/');
        url.with_path(path.as_str())
    };
    proof {
        lemma_document_name_is_simple();
        web_url::lemma_directory(folder@.path);
        assert(folder@.path == with_slash(url@.path));
        assert(folder@.path.last() == '/');
        assert(folder@.path.take(folder@.path.len() as int) =~= folder@.path);
        assert(web_url::directory(folder@.path) =~= folder@.path);
    }
    proof {
        lemma_tileset_is_a_document(folder@.path);
    }
    folder.join("tileset.json")
}

proof fn lemma_document_name_is_simple()
    ensures
        web_url::is_simple_reference("tileset.json"@),
{
    let name = "tileset.json"@;
    reveal_strlit("tileset.json");
    assert(name.len() == 12);
    assert(!name.contains('/'));
    text::lemma_split_append(Seq::empty(), name, '/');
    assert(Seq::<char>::empty() + name =~= name);
    assert(text::split(Seq::empty(), '/').drop_last().push(name) =~= seq![name]);
    assert(name[0] == 't');
    assert forall|i: int| 0 <= i < name.len() implies web_url::is_simple_char(
        #[trigger] name[i],
    ) by {}
    assert(web_url::is_simple_name(name));
}

/// Accepts either a direct `tileset.json` URL or a directory URL.
///
/// Users reasonably paste `https://host/tiles/` (the folder they browsed to) as
/// well as `https://host/tiles/tileset.json`. Directory-looking inputs get
/// `tileset.json` appended; the query string of a direct `.json` URL is kept
/// untouched so signed URLs keep working.
pub fn normalize_entry_url(input: &str) -> (document: Result<Url>)
    requires
        web_url::parsed_url(input@) matches Ok(url) ==> slash_fits(url),
    ensures
        error::outcome(document) == (match web_url::parse_outcome(input@) {
            Ok(url) => entry_document(url),
            Err(error) => Err(error),
        }),
        web_url::parsed_url(input@) matches Ok(url) ==> {
            &&& web_url::is_web_scheme(url.scheme) ==> document is Ok
            &&& web_url::is_web_scheme(url.scheme) && !names_a_document(url.path) ==> (
            document matches Ok(d) && is_tileset_in(d@, url))
        },
        document matches Ok(d) ==> is_entry(d@),
        document matches Ok(d) ==> (web_url::parsed_url(input@) matches Ok(url) && {
            let path = url.path;
            let json = path.len() >= 5 && path[path.len() - 5] == '.' && (path[path.len() - 4]
                == 'j' || path[path.len() - 4] == 'J') && (path[path.len() - 3] == 's'
                || path[path.len() - 3] == 'S') && (path[path.len() - 2] == 'o' || path[path.len()
                - 2] == 'O') && (path[path.len() - 1] == 'n' || path[path.len() - 1] == 'N');
            &&& json ==> d@ == url
            &&& !json ==> is_tileset_in(d@, url)
        }),
{
    let url = Url::parse(input)?;
    entry_url(url)
}

/// [`normalize_entry_url`], or nothing where the URL has no room for the slash that
/// would have to be added to it.
pub fn try_normalize_entry_url(input: &str) -> (document: Option<Result<Url>>)
    ensures
        document is None <==> (web_url::parsed_url(input@) matches Ok(url) && !slash_fits(url)),
        document matches Some(result) ==> error::outcome(result) == (
        match web_url::parse_outcome(input@) {
            Ok(url) => entry_document(url),
            Err(error) => Err(error),
        }),
        document matches Some(Ok(d)) ==> is_entry(d@),
        document matches Some(Ok(d)) ==> (web_url::parsed_url(input@) matches Ok(url) && {
            let path = url.path;
            let json = path.len() >= 5 && path[path.len() - 5] == '.' && (path[path.len() - 4]
                == 'j' || path[path.len() - 4] == 'J') && (path[path.len() - 3] == 's'
                || path[path.len() - 3] == 'S') && (path[path.len() - 2] == 'o' || path[path.len()
                - 2] == 'O') && (path[path.len() - 1] == 'n' || path[path.len() - 1] == 'N');
            &&& json ==> d@ == url
            &&& !json ==> is_tileset_in(d@, url)
        }),
{
    match Url::parse(input) {
        Ok(url) => {
            if url.address_fits(u32::MAX - 1) {
                Some(normalize_entry_url(input))
            } else {
                let chars = text::chars_of(url.path());
                let lowered = text::ascii_lower(url.path());
                let web = text::same_text(url.scheme(), "http") || text::same_text(
                    url.scheme(),
                    "https",
                );
                let document = text::has_suffix(lowered.as_str(), ".json");
                let slashed = chars.len() > 0 && chars[chars.len() - 1] == '/';
                proof {
                    if !slashed {
                        assert(url@.path.push('/').len() != url@.path.len());
                    }
                }
                if web && !document && !slashed {
                    None
                } else {
                    Some(normalize_entry_url(input))
                }
            }
        },
        Err(error) => Some(Err(error)),
    }
}

/// The folder that holds the document `url`.
pub open spec fn folder_of(url: UrlParts) -> UrlParts {
    web_url::url_without_fragment(
        web_url::url_without_query(
            web_url::url_with_path(url.text, web_url::directory(url.path)).text,
        ).text,
    )
}

/// A URL that names a folder, and nothing else: its path ends in a slash, and it has
/// no query and no fragment.
pub open spec fn is_folder(url: UrlParts) -> bool {
    &&& url.path == web_url::directory(url.path)
    &&& url.query is None
    &&& url.fragment is None
}

/// `base` is the folder of the document `url`: the same address, the path up to
/// the last slash, no query and no fragment. A folder is its own folder.
pub open spec fn is_folder_of(base: UrlParts, url: UrlParts) -> bool {
    &&& web_url::same_address(base, url)
    &&& base.path == web_url::directory(url.path)
    &&& base.query is None
    &&& base.fragment is None
    &&& is_folder(url) ==> base == url
}

/// Taking the folder of a URL does not make it too long to be represented.
pub open spec fn folder_fits(url: UrlParts) -> bool {
    web_url::address_length(url) + web_url::path_growth(url, web_url::directory(url.path))
        <= u32::MAX
}

/// Whether the folder of a URL can be represented.
pub fn has_folder(url: &Url) -> (fits: bool)
    ensures
        fits == folder_fits(url@),
{
    if text::same_text(url.scheme(), "http") || text::same_text(url.scheme(), "https") {
        url.address_fits(u32::MAX)
    } else {
        url.address_fits(u32::MAX - 3)
    }
}

/// The directory that holds the last path segment of `url`: everything up to
/// and including the final `/`. Queries and fragments are dropped, so the
/// result is usable as `relative_output_path`'s `base`.
///
/// `/a/b/tileset.json` -> `/a/b/`; `/tileset.json` -> `/`; a path containing
/// no `/` at all becomes `/`.
pub fn base_dir(url: &Url) -> (base: Url)
    requires
        folder_fits(url@),
    ensures
        base@ == folder_of(url@),
        web_url::is_web_scheme(url@.scheme) ==> is_folder_of(base@, url@),
{
    let directory = web_url::directory_text(url.path());
    url.with_path(directory.as_str()).without_query().without_fragment()
}

/// The folder of a folder is that folder, as a whole URL: taking the folder a second
/// time changes nothing.
pub proof fn law_folder_of_a_folder(url: UrlParts, base: UrlParts, again: UrlParts)
    requires
        is_folder_of(base, url),
        is_folder_of(again, base),
    ensures
        again == base,
{
    let path = url.path;
    let folder = base.path;
    web_url::lemma_directory(path);
    web_url::lemma_directory(folder);
    assert(folder.len() > 0 && folder[folder.len() - 1] == '/');
    assert(folder.contains('/'));
    assert(web_url::directory_length(folder) == folder.len());
    assert(web_url::directory(folder) =~= folder);
}

/// The entry document lands directly in the output directory: relative to its own
/// folder, its local path is its file name.
pub proof fn law_entry_document_is_shallow(document: UrlParts, base: UrlParts)
    requires
        is_folder_of(base, document),
        document.path.contains('/'),
    ensures
        ({
            let name = document.path.skip(web_url::directory_length(document.path) as int);
            output_path(document, base) == (if is_elided(name) || is_unsafe(name) {
                Err::<Seq<char>, ErrorModel>(ErrorModel::UnsafeUri { uri: document.text })
            } else {
                Ok::<Seq<char>, ErrorModel>(sanitized(name))
            })
        }),
{
    let path = document.path;
    let n = web_url::directory_length(path) as int;
    let name = path.skip(n);
    web_url::lemma_directory(path);
    assert(path.take(base.path.len() as int) =~= base.path);
    assert(in_folder(document, base));
    if name.contains('/') {
        let i = choose|i: int| 0 <= i < name.len() && name[i] == '/';
        assert(path[n + i] == '/');
    }
    let segments = text::split(name, '/');
    lemma_single_segment(name);
    assert(segments[0] == name);
    assert(has_unsafe(segments) <==> is_unsafe(name));
    assert(segments.drop_last() =~= Seq::<Seq<char>>::empty());
    assert(kept_segments(segments.drop_last()) =~= Seq::<Seq<char>>::empty());
    if !is_elided(name) {
        assert(kept_segments(segments) =~= seq![name]);
        assert(file_names(segments) =~= seq![sanitized(name)]);
    }
}

proof fn lemma_single_segment(name: Seq<char>)
    requires
        !name.contains('/'),
    ensures
        text::split(name, '/') == seq![name],
{
    let empty = Seq::<char>::empty();
    text::lemma_split_append(empty, name, '/');
    assert(empty + name =~= name);
    assert(text::split(empty, '/').drop_last().push(name) =~= seq![name]);
}

proof fn lemma_simple_segments(segments: Seq<Seq<char>>)
    requires
        forall|i: int| 0 <= i < segments.len() ==> web_url::is_simple_name(#[trigger] segments[i]),
    ensures
        !has_unsafe(segments),
        kept_segments(segments) == segments,
    decreases segments.len(),
{
    assert forall|i: int| 0 <= i < segments.len() implies !is_unsafe(#[trigger] segments[i]) by {
        let name = segments[i];
        assert(web_url::is_simple_name(name));
        assert(forall|j: int| 0 <= j < name.len() ==> web_url::is_simple_char(#[trigger] name[j]));
    }
    if segments.len() > 0 {
        lemma_simple_segments(segments.drop_last());
        assert(web_url::is_simple_name(segments[segments.len() - 1]));
        assert(segments.drop_last().push(segments.last()) =~= segments);
    }
}

/// The files beside the entry document keep their relative position: a reference of
/// simple names, resolved against the entry document, is written to that very
/// relative path, with each name escaped where Windows would need it.
pub proof fn law_files_beside_keep_their_position(
    document: UrlParts,
    base: UrlParts,
    reference: Seq<char>,
    url: UrlParts,
)
    requires
        is_folder_of(base, document),
        web_url::is_simple_reference(reference),
        web_url::replaces_last_segment(document, reference, Ok(url)),
    ensures
        output_path(url, base) == Ok::<Seq<char>, ErrorModel>(
            text::join(
                text::split(reference, '/').map_values(|name: Seq<char>| sanitized(name)),
                '/',
            ),
        ),
{
    let segments = text::split(reference, '/');
    text::lemma_split_nonempty(reference, '/');
    assert(url.path.take(base.path.len() as int) =~= base.path);
    assert(url.path.skip(base.path.len() as int) =~= reference);
    lemma_simple_segments(segments);
    assert(file_names(segments) =~= segments.map_values(|name: Seq<char>| sanitized(name)));
}

proof fn lemma_kept_both(a: Seq<Seq<char>>, b: Seq<Seq<char>>)
    ensures
        kept_segments(a + b) == kept_segments(a) + kept_segments(b),
    decreases b.len(),
{
    if b.len() == 0 {
        assert(a + b =~= a);
    } else {
        lemma_kept_both(a, b.drop_last());
        assert((a + b).drop_last() =~= a + b.drop_last());
        assert((a + b).last() == b.last());
    }
}

/// Relative references keep resolving in the mirror: where a document in the folder
/// names a file by a reference of simple names, the file is written to where that
/// reference leads from the document's own local path, with each name escaped where
/// Windows would need it. This holds of every document in the folder, however deep.
pub proof fn law_relative_references_keep_resolving(
    document: UrlParts,
    base: UrlParts,
    reference: Seq<char>,
    url: UrlParts,
)
    requires
        base.path.len() > 0,
        base.path.last() == '/',
        in_folder(document, base),
        output_path(document, base) is Ok,
        !is_elided(document.path.skip(web_url::directory_length(document.path) as int)),
        web_url::is_simple_reference(reference),
        web_url::replaces_last_segment(document, reference, Ok(url)),
    ensures
        output_path(url, base) matches Ok(path) && local_path::parts(path) == local_path::parts(
            output_path(document, base)->Ok_0,
        ).drop_last() + text::split(reference, '/').map_values(
            |name: Seq<char>| Part::Name(sanitized(name)),
        ),
{
    let path = document.path;
    let n = base.path.len() as int;
    let end = web_url::directory_length(path) as int;
    web_url::lemma_directory(path);
    assert(path[n - 1] == base.path[n - 1]);
    assert(path.contains('/'));
    assert(end >= n);
    let head = path.subrange(n, end);
    let name = path.skip(end);
    if head.len() > 0 {
        assert(head.last() == path[end - 1]);
    }
    if name.contains('/') {
        let i = choose|i: int| 0 <= i < name.len() && name[i] == '/';
        assert(path[end + i] == '/');
    }
    assert(path.skip(n) =~= head + name);
    assert(url.path.skip(n) =~= head + reference);
    assert(url.path.take(n) =~= base.path);
    text::lemma_split_behind(head, name, '/');
    text::lemma_split_behind(head, reference, '/');
    lemma_single_segment(name);
    let front = text::split(head, '/').drop_last();
    let pieces = text::split(reference, '/');
    let old = text::split(path.skip(n), '/');
    let new = text::split(url.path.skip(n), '/');
    assert(old == front + seq![name]);
    assert(new == front + pieces);
    lemma_kept_both(front, seq![name]);
    lemma_kept_both(front, pieces);
    lemma_simple_segments(pieces);
    text::lemma_split_nonempty(reference, '/');
    assert(seq![name].drop_last() =~= Seq::<Seq<char>>::empty());
    assert(kept_segments(seq![name]) =~= seq![name]) by {
        assert(kept_segments(seq![name].drop_last()) =~= Seq::<Seq<char>>::empty());
    }
    assert(!has_unsafe(new)) by {
        assert forall|i: int| 0 <= i < new.len() implies !is_unsafe(#[trigger] new[i]) by {
            if i < front.len() {
                assert(new[i] == old[i]);
            } else {
                assert(new[i] == pieces[i - front.len()]);
            }
        }
    }
    law_output_stays_inside(document, base, Seq::empty());
    law_output_stays_inside(url, base, Seq::empty());
    let from = local_path::parts(output_path(document, base)->Ok_0);
    assert(local_path::parts(output_path(url, base)->Ok_0) =~= from.drop_last()
        + pieces.map_values(|name: Seq<char>| Part::Name(sanitized(name))));
}

/// Query and fragment have no part in the local path.
pub proof fn law_query_and_fragment_are_dropped(a: UrlParts, b: UrlParts, base: UrlParts)
    requires
        web_url::same_address(a, b),
        a.path == b.path,
    ensures
        output_path(a, base) is Ok <==> output_path(b, base) is Ok,
        output_path(a, base) is Ok ==> output_path(a, base) == output_path(b, base),
{
}

/// Percent-encoding is never decoded: each file name is a segment of the URL's path
/// letter for letter, at most with an underscore in front.
pub proof fn law_names_are_verbatim(path: Seq<char>, i: int)
    requires
        0 <= i < file_names(text::split(path, '/')).len(),
    ensures
        ({
            let name = file_names(text::split(path, '/'))[i];
            exists|j: int|
                0 <= j < text::split(path, '/').len() && (name == #[trigger] text::split(
                    path,
                    '/',
                )[j] || name == seq!['_'] + text::split(path, '/')[j])
        }),
{
    let segments = text::split(path, '/');
    lemma_kept_from(segments, i);
    let j = choose|j: int|
        0 <= j < segments.len() && kept_segments(segments)[i] == #[trigger] segments[j];
    assert(file_names(segments)[i] == sanitized(segments[j]));
}

proof fn lemma_kept_from(segments: Seq<Seq<char>>, i: int)
    requires
        0 <= i < kept_segments(segments).len(),
    ensures
        exists|j: int|
            0 <= j < segments.len() && kept_segments(segments)[i] == #[trigger] segments[j],
    decreases segments.len(),
{
    let front = segments.drop_last();
    if i < kept_segments(front).len() {
        lemma_kept_from(front, i);
        let j = choose|j: int|
            0 <= j < front.len() && kept_segments(front)[i] == #[trigger] front[j];
        assert(segments[j] == front[j]);
    } else {
        assert(segments[segments.len() - 1] == kept_segments(segments)[i]);
    }
}

/// A file that does not lie in the folder of the entry document is kept in the
/// bucket of its host, and of its port where that is not the default one.
pub proof fn law_outside_files_are_bucketed(url: UrlParts, base: UrlParts)
    requires
        !in_folder(url, base),
    ensures
        output_path(url, base) matches Ok(path) ==> {
            let names = external_names(url);
            &&& local_path::parts(path).len() >= names.len()
            &&& local_path::parts(path).take(names.len() as int) == names.map_values(
                |name: Seq<char>| Part::Name(name),
            )
        },
{
    law_output_stays_inside(url, base, Seq::empty());
    if let Ok(path) = output_path(url, base) {
        let names = external_names(url);
        assert(local_path::parts(path).take(names.len() as int) =~= names.map_values(
            |name: Seq<char>| Part::Name(name),
        ));
    }
}

/// A URL names a document exactly where the last five characters of its path are `.json`,
/// each letter small or capital. Whatever comes before them does not matter.
pub proof fn law_documents_end_in_json(path: Seq<char>)
    ensures
        names_a_document(path) <==> {
            &&& path.len() >= 5
            &&& path[path.len() - 5] == '.'
            &&& path[path.len() - 4] == 'j' || path[path.len() - 4] == 'J'
            &&& path[path.len() - 3] == 's' || path[path.len() - 3] == 'S'
            &&& path[path.len() - 2] == 'o' || path[path.len() - 2] == 'O'
            &&& path[path.len() - 1] == 'n' || path[path.len() - 1] == 'N'
        },
{
    text::law_json_ending_in_any_case(path);
}

/// Every `http` or `https` URL whose path ends in `.json`, in any case, is its own entry
/// document, query and fragment with it. For every other such URL the name `tileset.json`
/// is resolved against its directory, and a URL of any other scheme is refused.
pub proof fn law_entry_is_the_document_or_in_the_directory(url: UrlParts)
    ensures
        ({
            let web = url.scheme == "http"@ || url.scheme == "https"@;
            let path = url.path;
            let json = path.len() >= 5 && path[path.len() - 5] == '.' && (path[path.len() - 4]
                == 'j' || path[path.len() - 4] == 'J') && (path[path.len() - 3] == 's'
                || path[path.len() - 3] == 'S') && (path[path.len() - 2] == 'o' || path[path.len()
                - 2] == 'O') && (path[path.len() - 1] == 'n' || path[path.len() - 1] == 'N');
            let slash = path.len() > 0 && path[path.len() - 1] == '/';
            &&& !web ==> entry_document(url) == Err::<UrlParts, ErrorModel>(
                ErrorModel::UnsupportedScheme { scheme: url.scheme },
            )
            &&& web && json ==> entry_document(url) == Ok::<UrlParts, ErrorModel>(url)
            &&& web && !json && slash ==> entry_document(url) == Ok::<UrlParts, ErrorModel>(
                web_url::joined_url(url.text, "tileset.json"@)->Ok_0,
            )
            &&& web && !json && !slash ==> entry_document(url) == Ok::<UrlParts, ErrorModel>(
                web_url::joined_url(
                    web_url::url_with_path(url.text, path + seq!['/']).text,
                    "tileset.json"@,
                )->Ok_0,
            )
        }),
{
    law_documents_end_in_json(url.path);
    assert(url.path + seq!['/'] =~= url.path.push('/'));
}

/// The path of a directory is the path as it was, with a slash behind it where it did not
/// end in one; so the document in it is one name further down.
pub proof fn law_directory_path_ends_in_a_slash(path: Seq<char>)
    ensures
        with_slash(path).len() > 0,
        with_slash(path)[with_slash(path).len() - 1] == '/',
        with_slash(path).take(path.len() as int) == path,
        with_slash(path).len() <= path.len() + 1,
        path.len() > 0 && path[path.len() - 1] == '/' ==> with_slash(path) == path,
        with_slash(with_slash(path)) == with_slash(path),
{
    assert(with_slash(path).take(path.len() as int) =~= path);
}

/// The names that Windows keeps for devices are `CON`, `PRN`, `AUX` and `NUL`, and `COM`
/// and `LPT` with one of the digits from one to nine.
pub proof fn law_devices_are_reserved(name: Seq<char>)
    ensures
        is_reserved_name(name) <==> {
            ||| name == seq!['C', 'O', 'N']
            ||| name == seq!['P', 'R', 'N']
            ||| name == seq!['A', 'U', 'X']
            ||| name == seq!['N', 'U', 'L']
            ||| name.len() == 4 && name.take(3) == seq!['C', 'O', 'M'] && '1' <= name[3] <= '9'
            ||| name.len() == 4 && name.take(3) == seq!['L', 'P', 'T'] && '1' <= name[3] <= '9'
        },
{
    reveal_strlit("CON");
    reveal_strlit("PRN");
    reveal_strlit("AUX");
    reveal_strlit("NUL");
    reveal_strlit("COM1");
    reveal_strlit("COM2");
    reveal_strlit("COM3");
    reveal_strlit("COM4");
    reveal_strlit("COM5");
    reveal_strlit("COM6");
    reveal_strlit("COM7");
    reveal_strlit("COM8");
    reveal_strlit("COM9");
    reveal_strlit("LPT1");
    reveal_strlit("LPT2");
    reveal_strlit("LPT3");
    reveal_strlit("LPT4");
    reveal_strlit("LPT5");
    reveal_strlit("LPT6");
    reveal_strlit("LPT7");
    reveal_strlit("LPT8");
    reveal_strlit("LPT9");
    assert("CON"@ =~= seq!['C', 'O', 'N']);
    assert("PRN"@ =~= seq!['P', 'R', 'N']);
    assert("AUX"@ =~= seq!['A', 'U', 'X']);
    assert("NUL"@ =~= seq!['N', 'U', 'L']);
    let com = seq!['C', 'O', 'M'];
    let lpt = seq!['L', 'P', 'T'];
    assert("COM1"@ =~= com.push('1') && "COM2"@ =~= com.push('2') && "COM3"@ =~= com.push('3'));
    assert("COM4"@ =~= com.push('4') && "COM5"@ =~= com.push('5') && "COM6"@ =~= com.push('6'));
    assert("COM7"@ =~= com.push('7') && "COM8"@ =~= com.push('8') && "COM9"@ =~= com.push('9'));
    assert("LPT1"@ =~= lpt.push('1') && "LPT2"@ =~= lpt.push('2') && "LPT3"@ =~= lpt.push('3'));
    assert("LPT4"@ =~= lpt.push('4') && "LPT5"@ =~= lpt.push('5') && "LPT6"@ =~= lpt.push('6'));
    assert("LPT7"@ =~= lpt.push('7') && "LPT8"@ =~= lpt.push('8') && "LPT9"@ =~= lpt.push('9'));
    assert forall|c: char| #[trigger] com.push(c).take(3) == com by {
        assert(com.push(c).take(3) =~= com);
    }
    assert forall|c: char| #[trigger] lpt.push(c).take(3) == lpt by {
        assert(lpt.push(c).take(3) =~= lpt);
    }
    if name.len() == 4 {
        assert(name =~= name.take(3).push(name[3]));
        let c = name[3];
        if '1' <= c <= '9' {
            assert(c == '1' || c == '2' || c == '3' || c == '4' || c == '5' || c == '6' || c == '7'
                || c == '8' || c == '9');
        }
    }
}

/// A file name keeps its letters, and gets an underscore in front exactly where Windows
/// would treat it specially: where what comes before its first dot is the name of a device,
/// in any case, and where it ends in a space or a dot.
pub proof fn law_special_names_are_escaped(stem: Seq<char>, rest: Seq<char>)
    requires
        !stem.contains('.'),
        rest.len() == 0 || rest[0] == '.',
    ensures
        ({
            let name = stem + rest;
            let ends = name.len() > 0 && (name[name.len() - 1] == ' ' || name[name.len() - 1]
                == '.');
            sanitized(name) == (if is_reserved_name(text::upper(stem)) || ends {
                seq!['_'] + name
            } else {
                name
            })
        }),
{
    text::law_head_is_all_before(stem, rest, '.', '.');
}

/// The directory of a host has a character for each of the host's: letters, digits, the
/// hyphen and the dot stand for themselves, and an underscore stands for anything else. A
/// host without characters is a single underscore. Windows is minded as for any file name.
pub proof fn law_host_is_kept_letter_by_letter(host: Seq<char>, name: Seq<char>)
    requires
        name.len() == (if host.len() == 0 {
            1
        } else {
            host.len()
        }),
        host.len() == 0 ==> name[0] == '_',
        forall|i: int|
            0 <= i < host.len() ==> #[trigger] name[i] == (if host[i] == '-' || host[i] == '.'
                || '0' <= host[i] <= '9' || 'A' <= host[i] <= 'Z' || 'a' <= host[i] <= 'z' {
                host[i]
            } else {
                '_'
            }),
    ensures
        sanitized_host(host) == sanitized(name),
{
    if host.len() == 0 {
        assert(name =~= seq!['_']);
    } else {
        assert(name =~= host.map_values(|c: char| host_char(c)));
    }
}

/// Which segments name nothing, and which cannot be file names: the empty one and the
/// single dot are left out, and two dots, or a backslash or a colon anywhere, refuse the
/// URL.
pub proof fn law_segments_are_left_out_or_refused(segment: Seq<char>)
    ensures
        is_elided(segment) <==> segment.len() == 0 || segment.len() == 1 && segment[0] == '.',
        is_unsafe(segment) <==> (segment.len() == 2 && segment[0] == '.' && segment[1] == '.')
            || exists|i: int|
            0 <= i < segment.len() && (#[trigger] segment[i] == '\\' || segment[i] == ':'),
{
    if segment.len() == 1 && segment[0] == '.' {
        assert(segment =~= seq!['.']);
    }
    if segment.len() == 2 && segment[0] == '.' && segment[1] == '.' {
        assert(segment =~= seq!['.', '.']);
    }
}

/// The segments that name something are kept in order, each on its own account.
pub proof fn law_named_segments_are_kept(a: Seq<Seq<char>>, segment: Seq<char>, b: Seq<Seq<char>>)
    ensures
        kept_segments(a + b) == kept_segments(a) + kept_segments(b),
        kept_segments(seq![segment]) == (if is_elided(segment) {
            Seq::empty()
        } else {
            seq![segment]
        }),
        has_unsafe(a + seq![segment] + b) <==> has_unsafe(a) || is_unsafe(segment) || has_unsafe(b),
{
    lemma_kept_both(a, b);
    assert(seq![segment].drop_last() =~= Seq::<Seq<char>>::empty());
    assert(kept_segments(seq![segment].drop_last()) =~= Seq::<Seq<char>>::empty());
    assert(kept_segments(seq![segment]) =~= (if is_elided(segment) {
        Seq::empty()
    } else {
        seq![segment]
    }));
    let all = a + seq![segment] + b;
    if has_unsafe(a) {
        let i = choose|i: int| 0 <= i < a.len() && is_unsafe(#[trigger] a[i]);
        assert(all[i] == a[i]);
    }
    if is_unsafe(segment) {
        assert(all[a.len() as int] == segment);
    }
    if has_unsafe(b) {
        let i = choose|i: int| 0 <= i < b.len() && is_unsafe(#[trigger] b[i]);
        assert(all[a.len() + 1 + i] == b[i]);
    }
    if has_unsafe(all) {
        let i = choose|i: int| 0 <= i < all.len() && is_unsafe(#[trigger] all[i]);
        if i < a.len() {
            assert(a[i] == all[i]);
        } else if i > a.len() {
            assert(b[i - a.len() - 1] == all[i]);
        }
    }
}

/// A file in the folder of the entry document is written to the path that remains behind
/// the folder's, segment by segment, and is refused exactly where a segment cannot be a
/// file name or none remains. What lies in the folder has the scheme, host and port of the
/// folder and a path that starts with the folder's, and nothing else.
pub proof fn law_files_inside_keep_the_remainder(url: UrlParts, base: UrlParts, rest: Seq<char>)
    ensures
        in_folder(url, base) <==> {
            &&& url.scheme == base.scheme
            &&& url.host == base.host
            &&& url.known_port == base.known_port
            &&& exists|tail: Seq<char>| url.path == #[trigger] (base.path + tail)
        },
        in_folder(url, base) && url.path == base.path + rest ==> {
            let segments = text::split(rest, '/');
            let kept = kept_segments(segments);
            output_path(url, base) == (if has_unsafe(segments) || kept.len() == 0 {
                Err::<Seq<char>, ErrorModel>(ErrorModel::UnsafeUri { uri: url.text })
            } else {
                Ok::<Seq<char>, ErrorModel>(
                    text::join(kept.map_values(|s: Seq<char>| sanitized(s)), '/'),
                )
            })
        },
{
    text::law_endings_and_beginnings(url.path, base.path);
    if url.path == base.path + rest {
        assert(url.path.skip(base.path.len() as int) =~= rest);
    }
}

/// A file outside the folder of the entry document is written below `_external`, then the
/// directory of its host, then its port where the URL gives one, and then all of its path.
/// It is refused exactly where a segment cannot be a file name.
pub proof fn law_files_outside_keep_the_whole_path(url: UrlParts, base: UrlParts)
    requires
        !in_folder(url, base),
    ensures
        ({
            let segments = text::split(url.path, '/');
            let host = match url.host {
                Some(host) => host,
                None => Seq::empty(),
            };
            let inner = text::join(
                kept_segments(segments).map_values(|s: Seq<char>| sanitized(s)),
                '/',
            );
            let bucket = "_external"@ + seq!['/'] + sanitized_host(host) + seq!['/'];
            output_path(url, base) == (if has_unsafe(segments) {
                Err::<Seq<char>, ErrorModel>(ErrorModel::UnsafeUri { uri: url.text })
            } else {
                Ok::<Seq<char>, ErrorModel>(
                    match url.port {
                        Some(port) => bucket + text::decimal(port as nat) + seq!['/'] + inner,
                        None => bucket + inner,
                    },
                )
            })
        }),
{
    let host = match url.host {
        Some(host) => host,
        None => Seq::empty(),
    };
    let names = seq![EXTERNAL_DIR@, sanitized_host(host)];
    let first = seq![EXTERNAL_DIR@];
    let second = seq![sanitized_host(host)];
    text::law_join_separates(first, second, '/');
    text::law_join_separates(second, first, '/');
    assert(first + second =~= names);
    let bucket = "_external"@ + seq!['/'] + sanitized_host(host) + seq!['/'];
    assert(text::join(names, '/').push('/') =~= bucket);
    let inner = mapped(url.path);
    match url.port {
        Some(port) => {
            let number = text::decimal(port as nat);
            let third = seq![number];
            text::law_join_separates(names, third, '/');
            text::law_join_separates(third, names, '/');
            assert(names + third =~= names.push(number));
            assert(text::join(names.push(number), '/').push('/') + inner =~= bucket + number
                + seq!['/'] + inner);
        },
        None => {},
    }
}

/// Joining is refused exactly for a path without characters and for one that is not made of
/// names only, in the name of that path. Anything else comes below the root, letter for
/// letter.
pub proof fn law_joining_refuses_or_appends(
    root: Seq<char>,
    relative: Seq<char>,
    style: PathStyle,
)
    ensures
        within(root, relative, style) is Err <==> relative.len() == 0
            || !local_path::is_names_only(relative, style),
        within(root, relative, style) matches Err(error) ==> error == (ErrorModel::UnsafeUri {
            uri: relative,
        }),
        within(root, relative, style) matches Ok(path) ==> path == root + (if root.len() == 0
            || root[root.len() - 1] == '/' {
            Seq::empty()
        } else {
            seq!['/']
        }) + relative,
{
    local_path::law_only_names_are_accepted(relative, style);
    local_path::law_pushing_appends(root, relative);
}

/// The folder of a document is its address with the path up to the last slash, and with
/// neither query nor fragment.
pub proof fn law_folder_ends_at_the_last_slash(
    base: UrlParts,
    url: UrlParts,
    head: Seq<char>,
    name: Seq<char>,
)
    requires
        is_folder_of(base, url),
        url.path == head + seq!['/'] + name,
        !name.contains('/'),
    ensures
        base.path == head + seq!['/'],
        base.scheme == url.scheme,
        base.host == url.host,
        base.port == url.port,
        base.known_port == url.known_port,
        base.query is None,
        base.fragment is None,
{
    web_url::law_directory_ends_at_the_last_slash(head, name);
}

/// Only where a slash has to be added does a URL need room for it: room is missing exactly
/// where an `http` or `https` URL neither ends in `.json` nor in a slash, and its address is
/// as long as 32 bits can tell. A folder needs no room in such URLs beyond what is there.
pub proof fn law_room_is_needed_for_the_slash(url: UrlParts)
    ensures
        ({
            let path = url.path;
            let web = url.scheme == "http"@ || url.scheme == "https"@;
            let slash = path.len() > 0 && path[path.len() - 1] == '/';
            &&& !slash_fits(url) <==> web && !names_a_document(path) && !slash
                && web_url::address_length(url) >= 0xffff_ffff
            &&& web ==> (folder_fits(url) <==> web_url::address_length(url) <= 0xffff_ffff)
            &&& !web ==> (folder_fits(url) <==> web_url::address_length(url) + 3 <= 0xffff_ffff)
        }),
{
    if !(url.path.len() > 0 && url.path.last() == '/') {
        assert(with_slash(url.path).len() != url.path.len());
    }
}

} // verus!
