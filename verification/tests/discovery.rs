use std::collections::{BTreeMap, BTreeSet};

use tileset_downloader::cli::plan_line;
use tileset_downloader::collector::Collector;
use tileset_downloader::discovery::{
    scan_document, Crawl, Discovery, DiscoveryOptions, ItemKind, Round, SubtreeJob, MAX_ITEMS,
};
use tileset_downloader::error::{Error, Result};
use tileset_downloader::implicit::{Coordinates, SubtreeExpansion};
use tileset_downloader::json::Json;
use tileset_downloader::local_path::{Component, LocalPath, PathStyle};
use tileset_downloader::path_util::join_within;
use tileset_downloader::subtree::{
    split_subtree_document, BufferHeader, BufferStep, BufferViewHeader, LoadedBuffers,
    SubtreeDocument,
};
use tileset_downloader::tileset::{Content, Tile, Tileset};
use tileset_downloader::web_url::Url;

fn url(input: &str) -> Url {
    Url::parse(input).expect("test URL")
}

fn json(value: &serde_json::Value) -> Json {
    match value {
        serde_json::Value::Null => Json::Null,
        serde_json::Value::Bool(flag) => Json::Bool(*flag),
        serde_json::Value::Number(number) => Json::Number(number.as_u64()),
        serde_json::Value::String(text) => Json::Text(text.clone()),
        serde_json::Value::Array(values) => Json::Array(values.iter().map(json).collect()),
        serde_json::Value::Object(map) => Json::Object(entries(map)),
    }
}

fn entries(map: &serde_json::Map<String, serde_json::Value>) -> Vec<(String, Json)> {
    map.iter()
        .map(|(key, value)| (key.clone(), json(value)))
        .collect()
}

fn parse(text: &str) -> serde_json::Value {
    serde_json::from_str(text).expect("fixture should parse")
}

fn text_of(value: &serde_json::Value, key: &str) -> Option<String> {
    value.get(key).and_then(|v| v.as_str()).map(str::to_owned)
}

fn size_of(value: &serde_json::Value, key: &str) -> usize {
    value.get(key).and_then(|v| v.as_u64()).unwrap_or(0) as usize
}

fn list_of<'a>(value: &'a serde_json::Value, key: &str) -> Vec<&'a serde_json::Value> {
    match value.get(key).and_then(|v| v.as_array()) {
        Some(values) => values.iter().collect(),
        None => Vec::new(),
    }
}

fn document(bytes: &[u8]) -> SubtreeDocument {
    let value: serde_json::Value =
        serde_json::from_slice(bytes).expect("subtree JSON should parse");
    SubtreeDocument {
        buffers: list_of(&value, "buffers")
            .into_iter()
            .map(|b| BufferHeader {
                uri: text_of(b, "uri"),
            })
            .collect(),
        buffer_views: list_of(&value, "bufferViews")
            .into_iter()
            .map(|v| BufferViewHeader {
                buffer: size_of(v, "buffer"),
                byte_offset: size_of(v, "byteOffset"),
                byte_length: size_of(v, "byteLength"),
            })
            .collect(),
        tile_availability: value.get("tileAvailability").map_or(Json::Null, json),
        content_availability: value
            .get("contentAvailability")
            .and_then(|v| v.as_array())
            .map(|a| a.iter().map(json).collect()),
        child_subtree_availability: value.get("childSubtreeAvailability").map_or(Json::Null, json),
        content_uri: text_of(&value, "contentUri"),
        subtree_uri: text_of(&value, "subtreeUri"),
        extensions: value.get("extensions").and_then(|v| v.as_object()).map(entries),
    }
}

fn content(value: &serde_json::Value) -> Content {
    Content {
        uri: value
            .get("uri")
            .or_else(|| value.get("url"))
            .and_then(|v| v.as_str())
            .map(str::to_owned),
    }
}

fn tile(value: &serde_json::Value) -> Tile {
    Tile {
        content: value.get("content").map(content),
        contents: match value.get("contents").and_then(|v| v.as_array()) {
            Some(contents) => contents.iter().map(content).collect(),
            None => Vec::new(),
        },
        children: match value.get("children").and_then(|v| v.as_array()) {
            Some(children) => children.iter().map(tile).collect(),
            None => Vec::new(),
        },
        implicit_tiling: value.get("implicitTiling").map(json),
        extensions: value
            .get("extensions")
            .and_then(|v| v.as_object())
            .map(entries),
    }
}

fn tileset(text: &str) -> Tileset {
    Tileset {
        root: parse(text).get("root").map(tile),
        ..Tileset::default()
    }
}

/// What a server holds, by URL.
fn site(host: &str, files: &[(&str, &str)]) -> BTreeMap<String, String> {
    files
        .iter()
        .map(|(path, body)| (format!("{host}{path}"), (*body).to_owned()))
        .collect()
}

fn fetch(site: &BTreeMap<String, String>, url: &Url) -> Result<Vec<u8>> {
    match site.get(url.as_str()) {
        Some(body) => Ok(body.as_bytes().to_vec()),
        None => Err(Error::HttpStatus {
            url: url.as_str().to_owned(),
            status: 404,
        }),
    }
}

/// Crawls a site that is held in memory.
fn discover(site: &BTreeMap<String, String>, entry: &str) -> Result<Discovery> {
    let mut crawl = Crawl::new(&url(entry))?;
    loop {
        assert!(crawl.has_room(0));
        match crawl.next_round()? {
            Round::Documents(batch) => {
                for address in batch {
                    let body = String::from_utf8(fetch(site, &address)?).expect("is text");
                    let scan = scan_document(&address, &tileset(&body))?;
                    assert!(crawl.has_room(scan.references.len() + scan.implicits.len()));
                    crawl.absorb_scan(&address, &scan)?;
                }
            }
            Round::Subtrees(batch) => {
                for job in batch {
                    assert!(crawl.knows(&job));
                    let expansion = expand(site, &crawl, &job)?;
                    assert!(crawl.has_room(expansion.external_buffers.len()));
                    crawl.absorb_expansion(&job, expansion)?;
                }
            }
            Round::Finished => return Ok(crawl.finish()),
        }
    }
}

fn expand(
    site: &BTreeMap<String, String>,
    crawl: &Crawl,
    job: &SubtreeJob,
) -> Result<SubtreeExpansion> {
    let body = fetch(site, job.url())?;
    let (text, binary) = split_subtree_document(&body, job.url())?;
    let document = document(text);
    let mut loaded = LoadedBuffers::new();
    loop {
        match loaded.step(&document, binary, job.url())? {
            BufferStep::Done => return crawl.expand(job, &document, loaded),
            BufferStep::Fetch(source) => {
                let body = fetch(site, &source)?;
                loaded.supply(source, body);
            }
        }
    }
}

fn planned(discovery: &Discovery) -> Vec<String> {
    discovery
        .items
        .iter()
        .map(|item| item.relative_path.as_str().to_owned())
        .collect()
}

#[test]
fn deduplicates_by_url() {
    let mut collector = Collector::new(url("https://e.com/"));
    collector
        .add(url("https://e.com/a/0.b3dm"), ItemKind::Content)
        .expect("first add");
    collector
        .add(url("https://e.com/a/0.b3dm"), ItemKind::Content)
        .expect("duplicate add");
    assert_eq!(collector.items().len(), 1);
}

#[test]
fn rejects_two_urls_that_share_a_local_path() {
    // `aux.b3dm` escapes to `_aux.b3dm`, which is exactly what the literal
    // `_aux.b3dm` maps to — a genuine collision on the same host.
    let mut collector = Collector::new(url("https://e.com/"));
    collector
        .add(url("https://e.com/aux.b3dm"), ItemKind::Content)
        .expect("first add");
    let err = collector
        .add(url("https://e.com/_aux.b3dm"), ItemKind::Content)
        .expect_err("collision must be reported");
    assert!(matches!(err, Error::PathCollision { .. }));
}

#[test]
fn different_hosts_land_in_distinct_external_buckets() {
    let mut collector = Collector::new(url("https://e.com/"));
    collector
        .add(url("https://a.example/x/0.b3dm"), ItemKind::Content)
        .expect("first host");
    collector
        .add(url("https://b.example/x/0.b3dm"), ItemKind::Content)
        .expect("second host must not collide");
    assert_eq!(collector.items().len(), 2);
    assert_eq!(
        collector.items()[0].relative_path.as_str(),
        "_external/a.example/x/0.b3dm"
    );
    assert_eq!(
        collector.items()[1].relative_path.as_str(),
        "_external/b.example/x/0.b3dm"
    );
}

#[test]
fn a_traversing_url_still_lands_inside_the_output_root() {
    // URLs cannot climb out of the host root: the parser removes `..`. What
    // matters is that the resulting path is a plain nested path under the
    // output directory, never an absolute path or a parent reference.
    let mut collector = Collector::new(url("https://e.com/"));
    collector
        .add(url("https://e.com/../../etc/passwd"), ItemKind::Content)
        .expect("add");
    let relative = &collector.items()[0].relative_path;
    assert_eq!(relative.as_str(), "etc/passwd");
    assert!(relative
        .components()
        .iter()
        .all(|component| matches!(component, Component::Normal(_))));
}

#[test]
fn records_item_kinds() {
    let mut collector = Collector::new(url("https://e.com/"));
    collector
        .add(url("https://e.com/tileset.json"), ItemKind::Tileset)
        .expect("add");
    collector
        .add(url("https://e.com/s/0_0.subtree"), ItemKind::Subtree)
        .expect("add");
    assert_eq!(collector.items()[0].kind, ItemKind::Tileset);
    assert_eq!(collector.items()[1].kind, ItemKind::Subtree);
}

#[test]
fn a_collision_names_both_urls() {
    let mut collector = Collector::new(url("https://e.com/"));
    collector
        .add(url("https://e.com/a?v=1"), ItemKind::Content)
        .expect("first add");
    match collector.add(url("https://e.com/a?v=2"), ItemKind::Content) {
        Err(Error::PathCollision {
            path,
            first,
            second,
        }) => {
            assert_eq!(path.as_str(), "a");
            assert_eq!(first, "https://e.com/a?v=1");
            assert_eq!(second, "https://e.com/a?v=2");
        }
        other => panic!("unexpected {other:?}"),
    }
    assert_eq!(collector.into_items().len(), 1);
    assert_eq!(MAX_ITEMS, 5_000_000);
}

#[test]
fn paths_that_differ_only_by_an_empty_part_collide() {
    let mut collector = Collector::new(url("https://e.com/"));
    collector
        .add(url("https://o.example"), ItemKind::Content)
        .expect("first add");
    let again = collector.add(url("https://o.example/?x"), ItemKind::Content);
    assert!(matches!(again, Err(Error::PathCollision { .. })));
}

const ROOT_TILESET: &str = r#"{
  "root": {
    "content": { "uri": "tiles/0.b3dm" },
    "children": [
      { "content": { "uri": "tiles/1.pnts" } },
      { "contents": [ { "uri": "tiles/2.glb" } ] },
      { "extensions": { "3DTILES_multiple_contents": {
          "contents": [ { "uri": "tiles/3.cmpt" } ] } } },
      { "content": { "uri": "sub/tileset.json" } }
    ]
  }
}"#;

const SUB_TILESET: &str = r#"{
  "root": {
    "content": { "uri": "content/{level}_{x}_{y}.b3dm" },
    "implicitTiling": {
      "subdivisionScheme": "QUADTREE",
      "subtreeLevels": 2,
      "availableLevels": 3,
      "subtrees": { "uri": "subtrees/{level}_{x}_{y}.subtree" }
    }
  }
}"#;

const ROOT_SUBTREE: &str = r#"{
  "tileAvailability": { "constant": 1 },
  "contentAvailability": [ { "constant": 1 } ],
  "childSubtreeAvailability": { "constant": 1 }
}"#;

const LEAF_SUBTREE: &str = r#"{
  "tileAvailability": { "constant": 1 },
  "contentAvailability": [ { "constant": 1 } ],
  "childSubtreeAvailability": { "constant": 0 }
}"#;

fn full_site() -> BTreeMap<String, String> {
    let mut files = site(
        "http://127.0.0.1:4000",
        &[
            ("/tileset.json", ROOT_TILESET),
            ("/sub/tileset.json", SUB_TILESET),
            ("/sub/subtrees/0_0_0.subtree", ROOT_SUBTREE),
        ],
    );
    for x in 0..4 {
        for y in 0..4 {
            files.insert(
                format!("http://127.0.0.1:4000/sub/subtrees/2_{x}_{y}.subtree"),
                LEAF_SUBTREE.to_owned(),
            );
        }
    }
    files
}

#[test]
fn a_whole_tileset_is_planned() {
    let discovery =
        discover(&full_site(), "http://127.0.0.1:4000/tileset.json").expect("discovery");
    assert_eq!(discovery.external_tilesets, 1);
    assert_eq!(discovery.implicit_tilesets, 1);
    assert_eq!(discovery.subtree_files, 17);
    assert_eq!(discovery.buffer_files, 0);
    assert_eq!(
        discovery.entry.as_str(),
        "http://127.0.0.1:4000/tileset.json"
    );

    let mut expected: BTreeSet<String> = [
        "tileset.json",
        "tiles/0.b3dm",
        "tiles/1.pnts",
        "tiles/2.glb",
        "tiles/3.cmpt",
        "sub/tileset.json",
        "sub/content/0_0_0.b3dm",
        "sub/subtrees/0_0_0.subtree",
    ]
    .iter()
    .map(|path| (*path).to_owned())
    .collect();
    for x in 0..2 {
        for y in 0..2 {
            expected.insert(format!("sub/content/1_{x}_{y}.b3dm"));
        }
    }
    for x in 0..4 {
        for y in 0..4 {
            expected.insert(format!("sub/content/2_{x}_{y}.b3dm"));
            expected.insert(format!("sub/subtrees/2_{x}_{y}.subtree"));
        }
    }
    let paths = planned(&discovery);
    assert_eq!(discovery.len(), expected.len());
    assert!(!discovery.is_empty());
    assert_eq!(paths.iter().cloned().collect::<BTreeSet<String>>(), expected);

    let by_components: Vec<std::path::PathBuf> =
        paths.iter().map(std::path::PathBuf::from).collect();
    let mut sorted = by_components.clone();
    sorted.sort();
    assert_eq!(by_components, sorted, "the plan is sorted by local path");
    for item in &discovery.items {
        assert!(join_within(&LocalPath::from_text("out"), &item.relative_path, PathStyle::Windows).is_ok());
    }
}

#[test]
fn the_same_tileset_gives_the_same_plan() {
    let first = discover(&full_site(), "http://127.0.0.1:4000/tileset.json").expect("discovery");
    let second = discover(&full_site(), "http://127.0.0.1:4000/tileset.json").expect("discovery");
    assert_eq!(planned(&first), planned(&second));
}

#[test]
fn a_nested_entry_is_mirrored_from_its_folder() {
    let files = site(
        "http://127.0.0.1:4000",
        &[(
            "/a/b/tileset.json",
            r#"{ "root": { "content": { "uri": "0.b3dm" },
                 "children": [ { "content": { "uri": "../shared/tex.png" } } ] } }"#,
        )],
    );
    let discovery = discover(&files, "http://127.0.0.1:4000/a/b/tileset.json").expect("discovery");
    assert_eq!(
        planned(&discovery),
        vec![
            "0.b3dm",
            "_external/127.0.0.1/4000/a/shared/tex.png",
            "tileset.json"
        ]
    );
}

#[test]
fn reference_cycles_are_harmless() {
    let files = site(
        "https://e.com",
        &[
            (
                "/tileset.json",
                r#"{ "root": { "content": { "uri": "a.json" } } }"#,
            ),
            (
                "/a.json",
                r#"{ "root": { "content": { "uri": "tileset.json" },
                     "children": [ { "content": { "uri": "a.json" } } ] } }"#,
            ),
        ],
    );
    let discovery = discover(&files, "https://e.com/tileset.json").expect("discovery");
    assert_eq!(planned(&discovery), vec!["a.json", "tileset.json"]);
    assert_eq!(discovery.external_tilesets, 1);
}

#[test]
fn discovery_fails_fast() {
    let missing = site(
        "https://e.com",
        &[(
            "/tileset.json",
            r#"{ "root": { "content": { "uri": "gone.json" } } }"#,
        )],
    );
    assert!(matches!(
        discover(&missing, "https://e.com/tileset.json"),
        Err(Error::HttpStatus { status: 404, .. })
    ));

    let empty = site("https://e.com", &[("/tileset.json", "{}")]);
    assert!(matches!(
        discover(&empty, "https://e.com/tileset.json"),
        Err(Error::MissingRoot { url }) if url == "https://e.com/tileset.json"
    ));

    let unsafe_name = site(
        "https://e.com",
        &[(
            "/tileset.json",
            r#"{ "root": { "content": { "uri": "./a:b" } } }"#,
        )],
    );
    assert!(matches!(
        discover(&unsafe_name, "https://e.com/tileset.json"),
        Err(Error::UnsafeUri { uri }) if uri == "https://e.com/a:b"
    ));

    let implicit = site(
        "https://e.com",
        &[(
            "/tileset.json",
            r#"{ "root": { "implicitTiling": { "subdivisionScheme": "OCTREE" } } }"#,
        )],
    );
    assert!(matches!(
        discover(&implicit, "https://e.com/tileset.json"),
        Err(Error::Implicit { .. })
    ));
}

#[test]
fn external_buffers_are_part_of_the_plan() {
    let files = site(
        "https://e.com",
        &[
            (
                "/tileset.json",
                r#"{ "root": { "content": { "uri": "c.glb" }, "implicitTiling": {
                    "subdivisionScheme": "QUADTREE", "subtreeLevels": 1, "availableLevels": 1,
                    "subtrees": { "uri": "s/{level}.subtree" } } } }"#,
            ),
            (
                "/s/0.subtree",
                r#"{ "buffers": [ { "uri": "b.bin" } ],
                     "bufferViews": [ { "buffer": 0, "byteLength": 1 } ],
                     "tileAvailability": { "bitstream": 0 },
                     "childSubtreeAvailability": { "constant": 0 } }"#,
            ),
            ("/s/b.bin", "\u{1}"),
        ],
    );
    let discovery = discover(&files, "https://e.com/tileset.json").expect("discovery");
    assert_eq!(
        planned(&discovery),
        vec!["c.glb", "s/0.subtree", "s/b.bin", "tileset.json"]
    );
    assert_eq!(discovery.buffer_files, 1);
    let lines: Vec<String> = discovery.items.iter().map(plan_line).collect();
    assert_eq!(
        lines,
        vec![
            "content  https://e.com/c.glb",
            "subtree  https://e.com/s/0.subtree",
            "buffer   https://e.com/s/b.bin",
            "tileset  https://e.com/tileset.json",
        ]
    );
}

#[test]
fn a_crawl_hands_out_each_document_once() {
    let entry = url("https://e.com/tileset.json");
    let mut crawl = Crawl::new(&entry).expect("starts");
    assert_eq!(crawl.items().len(), 1);
    assert_eq!(crawl.pending_documents(), 1);
    match crawl.next_round() {
        Ok(Round::Documents(documents)) => {
            assert_eq!(documents.len(), 1);
            assert_eq!(documents[0].as_str(), entry.as_str());
        }
        other => panic!("unexpected {other:?}"),
    }
    assert_eq!(crawl.pending_documents(), 0);
    let body = tileset(
        r#"{ "root": { "content": { "uri": "a.json" },
             "children": [ { "content": { "uri": "a.json" } }, { "content": { "uri": "b" } } ] } }"#,
    );
    let scan = scan_document(&entry, &body).expect("has a root");
    crawl.absorb_scan(&entry, &scan).expect("is absorbed");
    assert_eq!(crawl.pending_documents(), 1);
    assert_eq!(crawl.items().len(), 3);
    assert_eq!(crawl.pending_subtrees(), 0);
    assert!(matches!(crawl.next_round(), Ok(Round::Documents(_))));
    assert!(matches!(crawl.next_round(), Ok(Round::Finished)));
    assert!(matches!(crawl.next_round(), Ok(Round::Finished)));
}

#[test]
fn subtrees_wait_until_every_document_was_read() {
    let entry = url("https://e.com/tileset.json");
    let mut crawl = Crawl::new(&entry).expect("starts");
    crawl.next_round().expect("hands out the entry");
    let body = tileset(
        r#"{ "root": { "implicitTiling": { "subdivisionScheme": "QUADTREE", "subtreeLevels": 1,
             "availableLevels": 1, "subtrees": { "uri": "s.subtree" } },
             "children": [ { "content": { "uri": "a.json" } } ] } }"#,
    );
    let scan = scan_document(&entry, &body).expect("has a root");
    crawl.absorb_scan(&entry, &scan).expect("is absorbed");
    assert!(matches!(crawl.next_round(), Ok(Round::Documents(urls)) if urls.len() == 1));
    match crawl.next_round() {
        Ok(Round::Subtrees(jobs)) => {
            assert_eq!(jobs.len(), 1);
            assert_eq!(jobs[0].url().as_str(), "https://e.com/s.subtree");
            assert_eq!(jobs[0].coordinates(), Coordinates::root());
        }
        other => panic!("unexpected {other:?}"),
    }
    assert!(matches!(crawl.next_round(), Ok(Round::Finished)));
}

#[test]
fn options_have_their_defaults() {
    assert!(DiscoveryOptions::default().progress);
    assert_eq!(ItemKind::Buffer.label(), "buffer");
    assert_eq!(ItemKind::Content.label(), "content");
}

#[test]
fn an_external_tileset_that_is_named_twice_is_one() {
    let files = site(
        "https://e.com",
        &[
            (
                "/tileset.json",
                r#"{"root":{"children":[{"content":{"uri":"sub/tileset.json"}},{"content":{"uri":"sub/tileset.json"}}]}}"#,
            ),
            ("/sub/tileset.json", r#"{"root":{}}"#),
        ],
    );
    let discovery = discover(&files, "https://e.com/tileset.json").expect("discovery");
    assert_eq!(discovery.len(), 2);
    assert_eq!(
        planned(&discovery),
        vec!["sub/tileset.json", "tileset.json"]
    );
    assert!(discovery
        .items
        .iter()
        .all(|item| item.kind == ItemKind::Tileset));
    assert_eq!(discovery.external_tilesets, 1);
    assert_eq!(discovery.clone().len(), 2);
}

#[test]
fn subtrees_and_buffers_that_are_named_twice_are_one() {
    let implicit = r#"{ "subdivisionScheme": "QUADTREE", "subtreeLevels": 1, "availableLevels": 2,
        "subtrees": { "uri": "s{level}.subtree" } }"#;
    let root = format!(
        r#"{{ "root": {{ "implicitTiling": {implicit},
             "children": [ {{ "implicitTiling": {implicit} }} ] }} }}"#
    );
    let subtree = r#"{ "buffers": [ { "uri": "b.bin" }, { "uri": "b.bin" } ],
        "tileAvailability": { "constant": 1 }, "childSubtreeAvailability": { "constant": 1 } }"#;
    let files = site(
        "https://e.com",
        &[
            ("/tileset.json", root.as_str()),
            ("/s0.subtree", subtree),
            ("/s1.subtree", subtree),
            ("/b.bin", "\u{1}"),
        ],
    );
    let discovery = discover(&files, "https://e.com/tileset.json").expect("discovery");
    assert_eq!(discovery.implicit_tilesets, 2);
    assert_eq!(discovery.subtree_files, 2);
    assert_eq!(discovery.buffer_files, 1);
    assert_eq!(
        planned(&discovery),
        vec!["b.bin", "s0.subtree", "s1.subtree", "tileset.json"]
    );
}

#[test]
fn a_refused_url_leaves_the_plan_in_order() {
    let mut collector = Collector::new(url("https://e.com/"));
    collector
        .add(url("https://e.com/a"), ItemKind::Content)
        .expect("is added");
    assert!(collector
        .add(url("https://e.com/a?x"), ItemKind::Content)
        .is_err());
    assert!(collector.holds(&url("https://e.com/a?x")));
    assert!(!collector.holds(&url("https://e.com/b")));
    collector
        .add(url("https://e.com/b"), ItemKind::Content)
        .expect("is added");
    let paths: Vec<String> = collector
        .into_items()
        .iter()
        .map(|item| item.relative_path.as_str().to_owned())
        .collect();
    assert_eq!(paths, vec!["a", "b"]);
}
