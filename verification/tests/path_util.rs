use tileset_downloader::error::Error;
use tileset_downloader::local_path::{Component, LocalPath, PathStyle};
use tileset_downloader::path_util::{
    base_dir, entry_url, has_folder, join_within, normalize_entry_url, relative_output_path, resolve,
    sanitize_host, sanitize_segment, try_normalize_entry_url, EXTERNAL_DIR,
};
use tileset_downloader::web_url::Url;

fn url(input: &str) -> Url {
    Url::parse(input).expect("test URL should parse")
}

fn names(path: &LocalPath) -> Vec<String> {
    path.components()
        .iter()
        .map(|c| match c {
            Component::Normal(name) => name.clone(),
            other => panic!("not a name: {other:?}"),
        })
        .collect()
}

fn assert_all_normal(path: &LocalPath) {
    assert!(
        path.components()
            .iter()
            .all(|c| matches!(c, Component::Normal(_))),
        "the local path must stay inside the output root: {path:?}"
    );
}

#[test]
fn appends_tileset_json_to_a_directory_url() {
    for (input, expected) in [
        (
            "https://example.com/tiles/",
            "https://example.com/tiles/tileset.json",
        ),
        (
            "https://example.com/tiles",
            "https://example.com/tiles/tileset.json",
        ),
        ("https://example.com", "https://example.com/tileset.json"),
        ("https://example.com/", "https://example.com/tileset.json"),
    ] {
        let normalized = normalize_entry_url(input).expect("should normalize");
        assert_eq!(
            normalized.as_str(),
            expected,
            "{input} should point at a tileset document"
        );
    }
}

#[test]
fn keeps_a_direct_tileset_url_and_its_query() {
    let normalized = normalize_entry_url("https://example.com/a/tileset.json?token=abc")
        .expect("should normalize");
    assert_eq!(
        normalized.as_str(),
        "https://example.com/a/tileset.json?token=abc"
    );
}

#[test]
fn rejects_non_http_schemes() {
    let err = normalize_entry_url("file:///tmp/tileset.json").expect_err("must reject file://");
    assert!(matches!(err, Error::UnsupportedScheme { .. }));
}

#[test]
fn maps_a_content_url_to_a_nested_relative_path() {
    let base = url("https://example.com/");
    let path = relative_output_path(&url("https://example.com/a/1/0/3.b3dm"), &base).expect("maps");
    assert_eq!(names(&path), vec!["a", "1", "0", "3.b3dm"]);
    assert_eq!(path.as_str(), "a/1/0/3.b3dm");
}

#[test]
fn drops_query_and_fragment_from_the_local_name() {
    let base = url("https://example.com/");
    let path = relative_output_path(&url("https://example.com/a/tileset.json?v=2#top"), &base)
        .expect("maps");
    assert_eq!(names(&path), vec!["a", "tileset.json"]);
}

#[test]
fn a_traversing_url_is_normalised_inside_the_output_root() {
    let base = url("https://example.com/");
    let path = relative_output_path(&url("https://example.com/../a/../../etc/passwd"), &base)
        .expect("maps");
    assert_eq!(names(&path), vec!["etc", "passwd"]);
    assert_all_normal(&path);
}

#[test]
fn encoded_dot_segments_are_neutralised_by_url_normalisation() {
    let base = url("https://example.com/");
    let path = relative_output_path(&url("https://example.com/a/%2E%2E/b"), &base).expect("maps");
    assert_eq!(names(&path), vec!["b"]);
}

#[test]
fn backslashes_are_normalised_to_separators() {
    let base = url("https://example.com/");
    let path = relative_output_path(&url("https://example.com/a\\b.b3dm"), &base).expect("maps");
    assert_eq!(names(&path), vec!["a", "b.b3dm"]);
}

#[test]
fn refuses_a_colon_in_a_segment() {
    let base = url("https://example.com/");
    assert!(relative_output_path(&url("https://example.com/a:b"), &base).is_err());
}

#[test]
fn percent_encoding_is_never_decoded() {
    let base = url("https://example.com/");
    let path = relative_output_path(&url("https://example.com/my%2E%2E%2Fsecret.b3dm"), &base)
        .expect("maps");
    assert_eq!(
        names(&path),
        vec!["my%2E%2E%2Fsecret.b3dm"],
        "decoding here would be the traversal bug"
    );
}

#[test]
fn escapes_reserved_windows_names() {
    let base = url("https://example.com/");
    let path = relative_output_path(&url("https://example.com/a/aux.b3dm"), &base).expect("maps");
    assert_eq!(names(&path), vec!["a", "_aux.b3dm"]);
}

#[test]
fn nested_entry_maps_everything_below_the_tileset_folder() {
    let base = url("https://example.com/a/b/");
    let path =
        relative_output_path(&url("https://example.com/a/b/tiles/0.b3dm"), &base).expect("maps");
    assert_eq!(names(&path), vec!["tiles", "0.b3dm"]);
    assert_all_normal(&path);
}

#[test]
fn the_entry_document_itself_is_shallow() {
    let base = url("https://example.com/a/b/");
    let path =
        relative_output_path(&url("https://example.com/a/b/tileset.json"), &base).expect("maps");
    assert_eq!(names(&path), vec!["tileset.json"]);
    assert_all_normal(&path);
}

#[test]
fn a_host_root_reference_under_the_tileset_folder_stays_in_base() {
    let base = url("https://example.com/a/b/");
    let path =
        relative_output_path(&url("https://example.com/a/b/deep/x.b3dm"), &base).expect("maps");
    assert_eq!(names(&path), vec!["deep", "x.b3dm"]);
    assert_all_normal(&path);
}

#[test]
fn climbing_above_the_tileset_folder_buckets_the_file_externally() {
    let base = url("https://example.com/a/b/");
    let path =
        relative_output_path(&url("https://example.com/a/shared/x.png"), &base).expect("maps");
    assert_eq!(
        names(&path),
        vec!["_external", "example.com", "a", "shared", "x.png"]
    );
    assert_all_normal(&path);
}

#[test]
fn a_different_host_is_bucketed_externally() {
    let base = url("https://example.com/a/");
    let path = relative_output_path(&url("https://cdn.example.org/t/y.b3dm"), &base).expect("maps");
    assert_eq!(
        names(&path),
        vec!["_external", "cdn.example.org", "t", "y.b3dm"]
    );
    assert_all_normal(&path);
}

#[test]
fn a_non_default_port_is_its_own_external_segment() {
    let base = url("https://example.com/a/");
    let path =
        relative_output_path(&url("https://cdn.example.org:8443/t/y.b3dm"), &base).expect("maps");
    assert_eq!(
        names(&path),
        vec!["_external", "cdn.example.org", "8443", "t", "y.b3dm"]
    );
    assert_all_normal(&path);
}

#[test]
fn a_default_port_is_not_emitted() {
    let base = url("https://example.com/a/");
    let path = relative_output_path(&url("http://example.com:80/t/y.b3dm"), &base).expect("maps");
    assert_eq!(
        names(&path),
        vec!["_external", "example.com", "t", "y.b3dm"],
        "a different scheme is external, and the default port must not appear"
    );
    assert_all_normal(&path);
}

#[test]
fn an_external_url_with_a_colon_segment_is_still_rejected() {
    let base = url("https://example.com/a/");
    assert!(
        relative_output_path(&url("https://other.example/x:y.b3dm"), &base).is_err(),
        "a colon in a path segment is never a safe file name"
    );
}

#[test]
fn base_dir_keeps_everything_up_to_the_last_slash() {
    assert_eq!(
        base_dir(&url("https://example.com/a/b/tileset.json")).path(),
        "/a/b/"
    );
    assert_eq!(
        base_dir(&url("https://example.com/tileset.json")).path(),
        "/"
    );
    // Queries and fragments belong to the document, not the folder.
    let base = base_dir(&url("https://example.com/a/b/tileset.json?v=2#top"));
    assert_eq!(base.path(), "/a/b/");
    assert!(base.query().is_none());
    assert!(base.fragment().is_none());
    assert_eq!(base.as_str(), "https://example.com/a/b/");
}

#[test]
fn join_within_rejects_absolute_and_parent_paths() {
    let root = LocalPath::from_text("out");
    assert!(join_within(&root, &LocalPath::from_text("a/b.b3dm"), PathStyle::Unix).is_ok());
    assert!(join_within(&root, &LocalPath::from_text("../escape.b3dm"), PathStyle::Unix).is_err());
    assert!(join_within(&root, &LocalPath::from_text(""), PathStyle::Unix).is_err());
    assert!(join_within(&root, &LocalPath::from_text("/etc/passwd"), PathStyle::Unix).is_err());
}

#[test]
fn resolution_follows_rfc3986() {
    let base = url("https://example.com/a/b/tileset.json");
    assert_eq!(
        resolve(&base, "tiles/0.b3dm").expect("joins").as_str(),
        "https://example.com/a/b/tiles/0.b3dm"
    );
    assert_eq!(
        resolve(&base, "../c/1.b3dm").expect("joins").as_str(),
        "https://example.com/a/c/1.b3dm"
    );
    assert_eq!(
        resolve(&base, "/root/2.b3dm").expect("joins").as_str(),
        "https://example.com/root/2.b3dm"
    );
    assert_eq!(
        resolve(&base, "https://cdn.example.org/3.b3dm")
            .expect("joins")
            .as_str(),
        "https://cdn.example.org/3.b3dm"
    );
}

#[test]
fn entry_urls_are_http_or_https() {
    let entry = normalize_entry_url("http://127.0.0.1:1/tileset.json").expect("parses");
    assert_eq!(entry.scheme(), "http");
}

#[test]
fn joining_keeps_the_root_in_front() {
    let root = LocalPath::from_text("out");
    let joined = join_within(&root, &LocalPath::from_text("a/b.b3dm"), PathStyle::Unix).expect("joins");
    assert_eq!(joined.as_str(), "out/a/b.b3dm");
    let slashed = LocalPath::from_text("out/");
    let joined = join_within(&slashed, &LocalPath::from_text("a/b.b3dm"), PathStyle::Unix).expect("joins");
    assert_eq!(joined.as_str(), "out/a/b.b3dm");
    let err = join_within(&root, &LocalPath::from_text("./a"), PathStyle::Unix).expect_err("not a name");
    assert!(matches!(err, Error::UnsafeUri { uri } if uri == "./a"));
}

#[test]
fn a_dot_in_the_middle_of_a_path_names_nothing() {
    let root = LocalPath::from_text("out");
    assert!(join_within(&root, &LocalPath::from_text("a/./b"), PathStyle::Unix).is_ok());
    assert!(join_within(&root, &LocalPath::from_text("a/../b"), PathStyle::Unix).is_err());
}

#[test]
fn an_unparsable_url_is_reported_with_its_input() {
    let err = normalize_entry_url("not a url").expect_err("must reject");
    match err {
        Error::Url { input, source } => {
            assert_eq!(input, "not a url");
            assert_eq!(source.messages, vec!["relative URL without a base"]);
        }
        other => panic!("unexpected {other:?}"),
    }
}

#[test]
fn an_unresolvable_reference_is_reported_with_its_text() {
    let base = url("https://example.com/a/tileset.json");
    let err = resolve(&base, "https://[oops/x").expect_err("must reject");
    match err {
        Error::Url { input, source } => {
            assert_eq!(input, "https://[oops/x");
            assert_eq!(source.messages, vec!["invalid IPv6 address"]);
        }
        other => panic!("unexpected {other:?}"),
    }
}

#[test]
fn a_document_url_is_recognised_in_any_case() {
    let entry = normalize_entry_url("https://example.com/a/TILESET.JSON").expect("normalizes");
    assert_eq!(entry.as_str(), "https://example.com/a/TILESET.JSON");
    let entry = entry_url(url("https://example.com/a/b?x=1#y")).expect("normalizes");
    assert_eq!(entry.as_str(), "https://example.com/a/b/tileset.json");
}

#[test]
fn an_ordinary_url_has_room_for_a_slash() {
    let entry = try_normalize_entry_url("https://example.com/tiles").expect("fits");
    assert_eq!(
        entry.expect("normalizes").as_str(),
        "https://example.com/tiles/tileset.json"
    );
    let refused = try_normalize_entry_url("::").expect("fits");
    assert!(matches!(refused, Err(Error::Url { .. })));
}

#[test]
fn the_folder_itself_is_no_file() {
    let base = url("https://example.com/a/b/");
    let err = relative_output_path(&url("https://example.com/a/b/?x=1"), &base)
        .expect_err("a folder is not a file");
    assert!(matches!(err, Error::UnsafeUri { uri } if uri == "https://example.com/a/b/?x=1"));
}

#[test]
fn a_bare_foreign_host_keeps_a_slash_at_the_end() {
    let base = url("https://example.com/a/");
    let path = relative_output_path(&url("https://other.example"), &base).expect("maps");
    assert_eq!(path.as_str(), "_external/other.example/");
    assert_eq!(names(&path), vec![EXTERNAL_DIR, "other.example"]);
}

#[test]
fn an_ipv6_host_becomes_a_directory_name() {
    let base = url("https://example.com/a/");
    let path = relative_output_path(&url("http://[::1]:8080/x.b3dm"), &base).expect("maps");
    assert_eq!(path.as_str(), "_external/___1_/8080/x.b3dm");
}

#[test]
fn duplicate_slashes_collapse() {
    let base = url("https://example.com/");
    let path = relative_output_path(&url("https://example.com/a//b///c"), &base).expect("maps");
    assert_eq!(path.as_str(), "a/b/c");
}

#[test]
fn segments_are_escaped_like_windows_needs_it() {
    for (segment, expected) in [
        ("aux.b3dm", "_aux.b3dm"),
        ("CON", "_CON"),
        ("com1.tar.gz", "_com1.tar.gz"),
        ("lpt9", "_lpt9"),
        ("com10", "com10"),
        ("tile.", "_tile."),
        ("tile ", "_tile "),
        ("tile.b3dm", "tile.b3dm"),
        ("", ""),
    ] {
        assert_eq!(sanitize_segment(segment), expected, "{segment:?}");
    }
    assert_eq!(sanitize_host(""), "_");
    assert_eq!(sanitize_host("nul"), "_nul");
    assert_eq!(sanitize_host("a_b.c-d"), "a_b.c-d");
    assert_eq!(sanitize_host(".."), "_..");
}

#[test]
fn the_parts_of_a_url_are_those_of_its_text() {
    let u = url("HTTPS://User@Example.COM:8443/a%20b?q=1#f");
    assert_eq!(u.as_str(), "https://User@example.com:8443/a%20b?q=1#f");
    assert_eq!(u.scheme(), "https");
    assert_eq!(u.host_str(), Some("example.com"));
    assert_eq!(u.port(), Some(8443));
    assert_eq!(u.port_or_known_default(), Some(8443));
    assert_eq!(u.path(), "/a%20b");
    assert_eq!(u.query(), Some("q=1"));
    assert_eq!(u.fragment(), Some("f"));
    let plain = url("http://example.com:80");
    assert_eq!(plain.port(), None);
    assert_eq!(plain.port_or_known_default(), Some(80));
    assert_eq!(plain.path(), "/");
    assert!(plain.address_fits(19));
    assert!(!plain.address_fits(18));
    assert_eq!(plain.duplicate().as_str(), "http://example.com/");
}

#[test]
fn setters_change_only_their_part() {
    let u = url("https://example.com/a/b?q=1#f");
    assert_eq!(
        u.with_path("/a/").as_str(),
        "https://example.com/a/?q=1#f"
    );
    assert_eq!(
        u.with_path("/a/b/").as_str(),
        "https://example.com/a/b/?q=1#f"
    );
    assert_eq!(u.without_query().as_str(), "https://example.com/a/b#f");
    assert_eq!(u.without_fragment().as_str(), "https://example.com/a/b?q=1");
}

#[test]
fn a_folder_of_a_url_without_slashes_is_the_root() {
    let opaque = url("data:text");
    assert_eq!(base_dir(&opaque).path(), "%2F");
    let slashed = url("data:text/plain,hi");
    assert_eq!(base_dir(&slashed).path(), "text/");
}

#[test]
fn files_beside_the_entry_keep_their_position() {
    let entry = url("https://example.com/3dtiles/v2/tileset.json");
    let base = base_dir(&entry);
    for reference in ["tiles/0/0/3.b3dm", "x.glb", "a/b/c-d_e.1.json"] {
        let resolved = resolve(&entry, reference).expect("resolves");
        let path = relative_output_path(&resolved, &base).expect("maps");
        assert_eq!(path.as_str(), reference);
    }
    let above = resolve(&entry, "../shared/tex.png").expect("resolves");
    let path = relative_output_path(&above, &base).expect("maps");
    assert_eq!(path.as_str(), "_external/example.com/3dtiles/shared/tex.png");
}

#[test]
fn join_within_reads_paths_as_the_system_does() {
    let root = LocalPath::from_text("out");
    for (relative, unix, windows) in [
        ("a/b.b3dm", true, true),
        ("..\\escape.b3dm", true, false),
        ("a\\..\\b", true, false),
        ("a\\b", true, true),
        ("C:\\x", true, false),
        ("c:x", true, false),
        ("1:x", true, true),
        ("a/C:x", true, true),
        ("\\x", true, false),
        (".\\x", true, false),
        ("/x", false, false),
        ("../x", false, false),
        ("", false, false),
    ] {
        let path = LocalPath::from_text(relative);
        assert_eq!(
            join_within(&root, &path, PathStyle::Unix).is_ok(),
            unix,
            "{relative:?}"
        );
        match join_within(&root, &path, PathStyle::Windows) {
            Ok(joined) => {
                assert!(windows, "{relative:?}");
                assert_eq!(joined.as_str(), format!("out/{relative}"));
            }
            Err(error) => {
                assert!(!windows, "{relative:?}");
                assert!(matches!(error, Error::UnsafeUri { uri } if uri == relative));
            }
        }
    }
}

#[test]
fn the_folder_of_a_folder_is_that_folder() {
    for text in [
        "https://example.com/a/b/tileset.json?v=2#top",
        "http://user@example.com:8080/x",
        "https://example.com",
    ] {
        let document = url(text);
        assert!(has_folder(&document));
        let base = base_dir(&document);
        assert!(has_folder(&base));
        assert_eq!(base_dir(&base).as_str(), base.as_str());
    }
}

#[test]
fn normalising_again_changes_nothing() {
    for text in [
        "https://example.com/tiles",
        "https://example.com/a/TILESET.json?token=abc#x",
        "http://example.com",
    ] {
        let entry = normalize_entry_url(text).expect("normalizes");
        let again = normalize_entry_url(entry.as_str()).expect("normalizes");
        assert_eq!(again.as_str(), entry.as_str());
    }
}

#[test]
fn a_host_whose_ascii_form_is_too_long_to_parse_still_works() {
    let label: String = (0..1000u32)
        .map(|i| char::from_u32(0x4e00 + (i * i * 7919 + i * 104_729) % 20_000).expect("a char"))
        .collect();
    let tiles = Url::parse(&format!("https://{label}/tiles?x#y")).expect("is accepted");
    assert!(
        Url::parse(tiles.as_str()).is_err(),
        "the serialisation is refused"
    );
    let host = tiles.host_str().expect("has a host").to_owned();
    let entry = entry_url(tiles.duplicate()).expect("normalizes");
    assert_eq!(entry.as_str(), format!("https://{host}/tiles/tileset.json"));
    let base = base_dir(&entry);
    assert_eq!(base.as_str(), format!("https://{host}/tiles/"));
    let content = resolve(&entry, "0/1.glb").expect("resolves");
    let path = relative_output_path(&content, &base).expect("maps");
    assert_eq!(path.as_str(), "0/1.glb");
    assert_eq!(tiles.clone().as_str(), tiles.as_str());
}

#[test]
fn the_fragment_counts_towards_the_length_before_it() {
    let query = url("http://example.com/a?q=1");
    assert!(query.address_fits(20) && !query.address_fits(19));
    let fragment = url("http://example.com/a?q=1#f");
    assert!(fragment.address_fits(24) && !fragment.address_fits(23));
}

#[test]
fn equal_texts_are_equal_urls() {
    // Whichever way a URL was made, one with the same text has the same parts.
    for base in [
        "demo:/",
        "demo:/a",
        "demo:/a/b",
        "demo:/.//a",
        "demo://h",
        "demo://h//a",
        "demo://",
        "demo:///a",
        "demo:x",
        "demo:",
        "data:a/b?q#f",
        "file:///a/b",
        "file:///C:/",
        "file:///C:",
        "file://h/C:/x",
        "http://h//a/",
        "https://u:p@h:8443/a/b?q#f",
    ] {
        let base = url(base);
        let mut made = vec![base_dir(&base), base.without_query(), base.without_fragment()];
        if !base.path().ends_with('/') {
            made.push(base.with_path(&format!("{}/", base.path())));
        }
        for reference in [
            "x", ".//x", "..//x", "../..//", "/.//", "?q", "#f", ".", "//h2/x", "///x", "C|/x", "//",
        ] {
            if let Ok(joined) = base.join(reference) {
                made.push(base_dir(&joined));
                made.push(joined);
            }
        }
        for one in made {
            let other = url(one.as_str());
            assert_eq!(other.as_str(), one.as_str());
            assert_eq!(other.path(), one.path(), "{one:?}");
            assert_eq!(other.host_str(), one.host_str(), "{one:?}");
            match (one.join("y"), other.join("y")) {
                (Ok(a), Ok(b)) => assert_eq!(a.as_str(), b.as_str()),
                (a, b) => assert_eq!(a.is_ok(), b.is_ok()),
            }
        }
    }
}
