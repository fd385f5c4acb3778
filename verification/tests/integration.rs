//! Whole runs against a server and a disk that are held in memory: crawl a tileset,
//! then write the mirror.

use std::collections::{BTreeMap, BTreeSet, HashMap};
use std::time::Duration;

use tileset_downloader::discovery::{scan_document, Crawl, Discovery, DownloadItem, Round, SubtreeJob};
use tileset_downloader::download::{
    summarize, temp_path, FileEvent, FileOutcome, FileStep, FileTask, Summary,
};
use tileset_downloader::error::Result;
use tileset_downloader::implicit::SubtreeExpansion;
use tileset_downloader::json::Json;
use tileset_downloader::local_path::{LocalPath, PathStyle};
use tileset_downloader::net::check_status;
use tileset_downloader::path_util::{join_within, normalize_entry_url};
use tileset_downloader::subtree::{
    split_subtree_document, BufferHeader, BufferStep, BufferViewHeader, LoadedBuffers,
    SubtreeDocument,
};
use tileset_downloader::tileset::{Content, Tile, Tileset};
use tileset_downloader::web_url::Url;

const SUB_TILESET: &str = r#"{
  "asset": { "version": "1.1" },
  "geometricError": 128,
  "root": {
    "boundingVolume": { "box": [0, 0, 0, 1, 0, 0, 0, 1, 0, 0, 0, 1] },
    "geometricError": 64,
    "refine": "REPLACE",
    "content": { "uri": "content/{level}_{x}_{y}.b3dm" },
    "implicitTiling": {
      "subdivisionScheme": "QUADTREE",
      "subtreeLevels": 2,
      "availableLevels": 3,
      "subtrees": { "uri": "subtrees/{level}_{x}_{y}.subtree" }
    }
  }
}"#;

const ROOT_TILESET: &str = r#"{
  "asset": { "version": "1.1", "generator": "integration-test" },
  "geometricError": 512,
  "root": {
    "boundingVolume": { "box": [0, 0, 0, 1, 0, 0, 0, 1, 0, 0, 0, 1] },
    "geometricError": 256,
    "refine": "ADD",
    "content": { "uri": "tiles/0.b3dm" },
    "children": [
      { "content": { "uri": "tiles/1.pnts" } },
      { "contents": [ { "uri": "tiles/2.glb" } ] },
      {
        "extensions": {
          "3DTILES_multiple_contents": {
            "contents": [ { "uri": "tiles/3.cmpt" } ]
          }
        }
      },
      { "content": { "uri": "sub/tileset.json" } }
    ]
  }
}"#;

const ROOT_SUBTREE: &str = r#"{
  "tileAvailability": { "constant": 1 },
  "contentAvailability": [ { "constant": 1 } ],
  "childSubtreeAvailability": { "constant": 1 }
}"#;

const LEAF_SUBTREE: &str = r#"{
  "tileAvailability": { "constant": 1 },
  "contentAvailability": [ { "constant": 1 } ],
  "childSubtreeAvailability": { "constant": 0 }
}"#;

const NESTED_TILESET: &str = r#"{
  "asset": { "version": "1.1" },
  "geometricError": 512,
  "root": {
    "boundingVolume": { "box": [0, 0, 0, 1, 0, 0, 0, 1, 0, 0, 0, 1] },
    "geometricError": 256,
    "refine": "ADD",
    "content": { "uri": "0.b3dm" },
    "children": [
      { "content": { "uri": "../shared/tex.png" } }
    ]
  }
}"#;

/// Every path the *implicit* half of the fixture should produce.
fn implicit_paths() -> BTreeSet<String> {
    let mut paths = BTreeSet::new();

    // The root subtree's own tile (level 0) and its four children (level 1).
    paths.insert("sub/content/0_0_0.b3dm".to_owned());
    for x in 0..2 {
        for y in 0..2 {
            paths.insert(format!("sub/content/1_{x}_{y}.b3dm"));
        }
    }
    paths.insert("sub/subtrees/0_0_0.subtree".to_owned());

    // Sixteen child subtrees at level 2, each with exactly one tile.
    for x in 0..4 {
        for y in 0..4 {
            paths.insert(format!("sub/content/2_{x}_{y}.b3dm"));
            paths.insert(format!("sub/subtrees/2_{x}_{y}.subtree"));
        }
    }

    paths
}

/// Build the full route table, optionally omitting one path to simulate a 404.
fn routes(missing: Option<&str>) -> HashMap<String, Vec<u8>> {
    let mut routes: HashMap<String, Vec<u8>> = HashMap::new();
    let mut add = |path: &str, body: Vec<u8>| {
        if Some(path) != missing {
            routes.insert(path.to_owned(), body);
        }
    };

    add("/tileset.json", ROOT_TILESET.as_bytes().to_vec());
    add("/tiles/0.b3dm", b"tile-0".to_vec());
    add("/tiles/1.pnts", b"tile-1".to_vec());
    add("/tiles/2.glb", b"tile-2".to_vec());
    add("/tiles/3.cmpt", b"tile-3".to_vec());
    add("/sub/tileset.json", SUB_TILESET.as_bytes().to_vec());
    add(
        "/sub/subtrees/0_0_0.subtree",
        ROOT_SUBTREE.as_bytes().to_vec(),
    );
    for x in 0..4 {
        for y in 0..4 {
            add(
                &format!("/sub/subtrees/2_{x}_{y}.subtree"),
                LEAF_SUBTREE.as_bytes().to_vec(),
            );
        }
    }
    for path in implicit_paths() {
        if path.ends_with(".b3dm") {
            add(&format!("/{path}"), format!("body-of-{path}").into_bytes());
        }
    }

    routes
}

/// What the server at `http://127.0.0.1:4000` answers, by path.
struct TestServer {
    routes: HashMap<String, Vec<u8>>,
}

impl TestServer {
    fn start(routes: HashMap<String, Vec<u8>>) -> Self {
        TestServer { routes }
    }

    fn url(&self, path: &str) -> String {
        format!("http://127.0.0.1:{}{path}", self.port())
    }

    fn port(&self) -> u16 {
        4000
    }

    fn get(&self, url: &Url) -> Result<Vec<u8>> {
        assert_eq!(url.port(), Some(self.port()));
        match self.routes.get(url.path()) {
            Some(body) => {
                check_status(url, 200)?;
                Ok(body.clone())
            }
            None => {
                check_status(url, 404)?;
                Ok(Vec::new())
            }
        }
    }
}

fn json(value: &serde_json::Value) -> Json {
    match value {
        serde_json::Value::Null => Json::Null,
        serde_json::Value::Bool(flag) => Json::Bool(*flag),
        serde_json::Value::Number(number) => Json::Number(number.as_u64()),
        serde_json::Value::String(text) => Json::Text(text.clone()),
        serde_json::Value::Array(values) => Json::Array(values.iter().map(json).collect()),
        serde_json::Value::Object(map) => Json::Object(entries(map)),
    }
}

fn entries(map: &serde_json::Map<String, serde_json::Value>) -> Vec<(String, Json)> {
    map.iter()
        .map(|(key, value)| (key.clone(), json(value)))
        .collect()
}

fn parse(text: &str) -> serde_json::Value {
    serde_json::from_str(text).expect("fixture should parse")
}

fn text_of(value: &serde_json::Value, key: &str) -> Option<String> {
    value.get(key).and_then(|v| v.as_str()).map(str::to_owned)
}

fn size_of(value: &serde_json::Value, key: &str) -> usize {
    value.get(key).and_then(|v| v.as_u64()).unwrap_or(0) as usize
}

fn list_of<'a>(value: &'a serde_json::Value, key: &str) -> Vec<&'a serde_json::Value> {
    match value.get(key).and_then(|v| v.as_array()) {
        Some(values) => values.iter().collect(),
        None => Vec::new(),
    }
}

fn document(bytes: &[u8]) -> SubtreeDocument {
    let value: serde_json::Value =
        serde_json::from_slice(bytes).expect("subtree JSON should parse");
    SubtreeDocument {
        buffers: list_of(&value, "buffers")
            .into_iter()
            .map(|b| BufferHeader {
                uri: text_of(b, "uri"),
            })
            .collect(),
        buffer_views: list_of(&value, "bufferViews")
            .into_iter()
            .map(|v| BufferViewHeader {
                buffer: size_of(v, "buffer"),
                byte_offset: size_of(v, "byteOffset"),
                byte_length: size_of(v, "byteLength"),
            })
            .collect(),
        tile_availability: value.get("tileAvailability").map_or(Json::Null, json),
        content_availability: value
            .get("contentAvailability")
            .and_then(|v| v.as_array())
            .map(|a| a.iter().map(json).collect()),
        child_subtree_availability: value.get("childSubtreeAvailability").map_or(Json::Null, json),
        content_uri: text_of(&value, "contentUri"),
        subtree_uri: text_of(&value, "subtreeUri"),
        extensions: value.get("extensions").and_then(|v| v.as_object()).map(entries),
    }
}

fn content(value: &serde_json::Value) -> Content {
    Content {
        uri: value
            .get("uri")
            .or_else(|| value.get("url"))
            .and_then(|v| v.as_str())
            .map(str::to_owned),
    }
}

fn tile(value: &serde_json::Value) -> Tile {
    Tile {
        content: value.get("content").map(content),
        contents: match value.get("contents").and_then(|v| v.as_array()) {
            Some(contents) => contents.iter().map(content).collect(),
            None => Vec::new(),
        },
        children: match value.get("children").and_then(|v| v.as_array()) {
            Some(children) => children.iter().map(tile).collect(),
            None => Vec::new(),
        },
        implicit_tiling: value.get("implicitTiling").map(json),
        extensions: value
            .get("extensions")
            .and_then(|v| v.as_object())
            .map(entries),
    }
}

fn tileset(text: &str) -> Tileset {
    Tileset {
        root: parse(text).get("root").map(tile),
        ..Tileset::default()
    }
}

fn discover(server: &TestServer, entry: &Url) -> Result<Discovery> {
    let mut crawl = Crawl::new(entry)?;
    loop {
        match crawl.next_round()? {
            Round::Documents(batch) => {
                for address in batch {
                    let body = String::from_utf8(server.get(&address)?).expect("is text");
                    let scan = scan_document(&address, &tileset(&body))?;
                    crawl.absorb_scan(&address, &scan)?;
                }
            }
            Round::Subtrees(batch) => {
                for job in batch {
                    let expansion = expand(server, &crawl, &job)?;
                    crawl.absorb_expansion(&job, expansion)?;
                }
            }
            Round::Finished => return Ok(crawl.finish()),
        }
    }
}

fn expand(server: &TestServer, crawl: &Crawl, job: &SubtreeJob) -> Result<SubtreeExpansion> {
    let body = server.get(job.url())?;
    let (text, binary) = split_subtree_document(&body, job.url())?;
    let document = document(text);
    let mut loaded = LoadedBuffers::new();
    loop {
        match loaded.step(&document, binary, job.url())? {
            BufferStep::Done => return crawl.expand(job, &document, loaded),
            BufferStep::Fetch(source) => {
                let body = server.get(&source)?;
                loaded.supply(source, body);
            }
        }
    }
}

/// The files on a disk, by path.
type Disk = BTreeMap<String, Vec<u8>>;

fn fetch_one(server: &TestServer, item: &DownloadItem, disk: &mut Disk) -> Result<FileOutcome> {
    let root = LocalPath::from_text("");
    let target = join_within(&root, &item.relative_path, PathStyle::Unix)?;
    let temp = temp_path(&target);
    let mut body = Vec::new();
    let mut task = FileTask::new(false);
    loop {
        let event = match task.step() {
            FileStep::LookForTarget => FileEvent::Found(disk.contains_key(target.as_str())),
            FileStep::Fetch => match server.get(&item.url) {
                Ok(bytes) => {
                    body = bytes;
                    FileEvent::Fetched(body.len() as u64)
                }
                Err(error) => FileEvent::NotFetched(error),
            },
            FileStep::CreateDirectory => FileEvent::Done,
            FileStep::WritePart => {
                disk.insert(temp.as_str().to_owned(), body.clone());
                FileEvent::Done
            }
            FileStep::Rename => {
                let bytes = disk.remove(temp.as_str()).expect("was written");
                disk.insert(target.as_str().to_owned(), bytes);
                FileEvent::Done
            }
            FileStep::DiscardPart => {
                disk.remove(temp.as_str());
                FileEvent::Done
            }
            FileStep::Finished => break,
        };
        task.advance(event);
    }
    task.into_result().expect("has finished")
}

fn download_all(server: &TestServer, items: &Vec<DownloadItem>, disk: &mut Disk) -> Summary {
    let results = items
        .iter()
        .map(|item| fetch_one(server, item, disk))
        .collect();
    summarize(items, results, Duration::ZERO)
}

fn collect_files(disk: &Disk) -> BTreeSet<String> {
    disk.keys().cloned().collect()
}

fn read(disk: &Disk, path: &str) -> String {
    String::from_utf8(disk.get(path).expect("exists").clone()).expect("is text")
}

#[test]
fn mirrors_explicit_and_implicit_tilesets_end_to_end() {
    let server = TestServer::start(routes(None));
    let mut output = Disk::new();
    let entry = normalize_entry_url(&server.url("/tileset.json")).expect("entry URL");
    let discovery = discover(&server, &entry).expect("discovery");

    // 6 explicitly referenced files: the entry document, four tiles, and the
    // external tileset. Then 17 subtrees and 21 contents from implicit tiling.
    assert_eq!(discovery.external_tilesets, 1);
    assert_eq!(discovery.implicit_tilesets, 1);
    assert_eq!(discovery.subtree_files, 17);
    assert_eq!(discovery.len(), 6 + 17 + 21);

    let summary = download_all(&server, &discovery.items, &mut output);
    assert!(summary.is_success(), "failures: {:?}", summary.failures);
    assert_eq!(summary.downloaded, discovery.len());
    assert_eq!(summary.skipped, 0);

    // Every planned path exists, with the bytes the server served.
    let mut expected: BTreeSet<String> = implicit_paths();
    for path in [
        "tileset.json",
        "tiles/0.b3dm",
        "tiles/1.pnts",
        "tiles/2.glb",
        "tiles/3.cmpt",
        "sub/tileset.json",
    ] {
        expected.insert(path.to_owned());
    }
    assert_eq!(collect_files(&output), expected);

    assert_eq!(read(&output, "tiles/0.b3dm"), "tile-0");
    assert_eq!(
        read(&output, "sub/content/2_3_2.b3dm"),
        "body-of-sub/content/2_3_2.b3dm"
    );
    assert_eq!(
        read(&output, "sub/tileset.json"),
        SUB_TILESET,
        "the external tileset must be mirrored so the result works offline"
    );

    // Nothing half-written may be left behind.
    assert!(
        !output.keys().any(|path| path.ends_with(".part")),
        "a .part file survived the run"
    );

    // A second run is a no-op: everything already exists.
    let second = download_all(&server, &discovery.items, &mut output);
    assert_eq!(second.downloaded, 0);
    assert_eq!(second.skipped, discovery.len());
    assert!(second.is_success());
}

#[test]
fn a_missing_tile_is_reported_without_losing_the_rest() {
    let server = TestServer::start(routes(Some("/tiles/1.pnts")));
    let mut output = Disk::new();
    let entry = normalize_entry_url(&server.url("/tileset.json")).expect("entry URL");
    let discovery = discover(&server, &entry).expect("discovery");
    let summary = download_all(&server, &discovery.items, &mut output);

    assert!(!summary.is_success());
    assert_eq!(summary.failures.len(), 1);
    assert!(summary.failures[0].url.ends_with("/tiles/1.pnts"));
    assert_eq!(summary.downloaded, discovery.len() - 1);

    // The rest of the mirror is intact and usable.
    assert!(output.contains_key("tiles/0.b3dm"));
    assert!(output.contains_key("sub/content/0_0_0.b3dm"));
    assert!(!output.contains_key("tiles/1.pnts"));
}

#[test]
fn a_directory_url_is_normalised_to_tileset_json() {
    let server = TestServer::start(routes(None));
    let mut output = Disk::new();
    // Note: no `/tileset.json` suffix; the tool must add it.
    let entry = normalize_entry_url(&server.url("/")).expect("entry URL");
    assert!(entry.path().ends_with("/tileset.json"));

    let discovery = discover(&server, &entry).expect("ok");
    let summary = download_all(&server, &discovery.items, &mut output);
    assert!(summary.is_success());
    assert!(output.contains_key("tileset.json"));
}

#[test]
fn a_nested_entry_mirrors_relative_to_the_tileset_folder() {
    let mut routes = HashMap::new();
    routes.insert(
        "/a/b/tileset.json".to_owned(),
        NESTED_TILESET.as_bytes().to_vec(),
    );
    routes.insert("/a/b/0.b3dm".to_owned(), b"nested-tile-0".to_vec());
    routes.insert("/a/shared/tex.png".to_owned(), b"shared-texture".to_vec());
    let server = TestServer::start(routes);
    let mut output = Disk::new();
    let entry = normalize_entry_url(&server.url("/a/b/tileset.json")).expect("entry URL");
    let discovery = discover(&server, &entry).expect("discovery");
    let summary = download_all(&server, &discovery.items, &mut output);

    assert!(summary.is_success(), "failures: {:?}", summary.failures);
    assert_eq!(summary.downloaded, 3);

    // The output root is the folder holding `tileset.json`, not the whole URL
    // path; the `../shared/tex.png` reference climbs above it and is bucketed
    // under `_external/<host>/<port>/<full-url-path>`.
    let port = server.port();
    let mut expected = BTreeSet::new();
    expected.insert("tileset.json".to_owned());
    expected.insert("0.b3dm".to_owned());
    expected.insert(format!("_external/127.0.0.1/{port}/a/shared/tex.png"));
    assert_eq!(collect_files(&output), expected);

    assert_eq!(read(&output, "0.b3dm"), "nested-tile-0");
    assert!(
        !output.keys().any(|path| path.starts_with("a/")),
        "the tileset's folder must not appear at the output root"
    );
}
