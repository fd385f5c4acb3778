use tileset_downloader::json::Json;
use tileset_downloader::tileset::{
    classify, Content, ReferenceKind, Scan, Tile, Tileset, IMPLICIT_TILING_EXTENSION,
};

fn json(value: &serde_json::Value) -> Json {
    match value {
        serde_json::Value::Null => Json::Null,
        serde_json::Value::Bool(flag) => Json::Bool(*flag),
        serde_json::Value::Number(number) => Json::Number(number.as_u64()),
        serde_json::Value::String(text) => Json::Text(text.clone()),
        serde_json::Value::Array(values) => Json::Array(values.iter().map(json).collect()),
        serde_json::Value::Object(map) => Json::Object(entries(map)),
    }
}

fn entries(map: &serde_json::Map<String, serde_json::Value>) -> Vec<(String, Json)> {
    map.iter()
        .map(|(key, value)| (key.clone(), json(value)))
        .collect()
}

fn parse(text: &str) -> serde_json::Value {
    serde_json::from_str(text).expect("fixture should parse")
}

fn content(value: &serde_json::Value) -> Content {
    Content {
        uri: value
            .get("uri")
            .or_else(|| value.get("url"))
            .and_then(|v| v.as_str())
            .map(str::to_owned),
    }
}

fn tile(value: &serde_json::Value) -> Tile {
    Tile {
        content: value.get("content").map(content),
        contents: match value.get("contents").and_then(|v| v.as_array()) {
            Some(contents) => contents.iter().map(content).collect(),
            None => Vec::new(),
        },
        children: match value.get("children").and_then(|v| v.as_array()) {
            Some(children) => children.iter().map(tile).collect(),
            None => Vec::new(),
        },
        implicit_tiling: value.get("implicitTiling").map(json),
        extensions: value
            .get("extensions")
            .and_then(|v| v.as_object())
            .map(entries),
    }
}

fn tileset(text: &str) -> Tileset {
    Tileset {
        root: parse(text).get("root").map(tile),
        ..Tileset::default()
    }
}

fn scan(text: &str) -> Scan {
    tileset(text).scan()
}

#[test]
fn collects_content_from_every_spelling() {
    let scan = scan(
        r#"{
          "asset": { "version": "1.1" },
          "root": {
            "content": { "uri": "a.b3dm" },
            "children": [
              { "content": { "url": "legacy/1.0-legacy.b3dm" } },
              { "contents": [ { "uri": "one.pnts" }, { "uri": "two.pnts" } ] },
              { "extensions": {
                  "3DTILES_multiple_contents": {
                    "contents": [ { "uri": "ext/three.cmpt" }, { "url": "ext/four.glb" } ]
                  }
              } }
            ]
          }
        }"#,
    );

    let uris: Vec<&str> = scan.references.iter().map(|r| r.uri.as_str()).collect();
    assert_eq!(
        uris,
        vec![
            "a.b3dm",
            "legacy/1.0-legacy.b3dm",
            "one.pnts",
            "two.pnts",
            "ext/three.cmpt",
            "ext/four.glb",
        ]
    );
    assert!(scan
        .references
        .iter()
        .all(|r| r.kind == ReferenceKind::Content));
}

#[test]
fn recognises_external_tilesets() {
    let scan = scan(
        r#"{
          "root": {
            "children": [
              { "content": { "uri": "sub/tileset.json" } },
              { "content": { "uri": "sub2/tileset.json?token=abc" } },
              { "content": { "uri": "tiles/0.b3dm" } }
            ]
          }
        }"#,
    );

    assert_eq!(classify("sub/tileset.json"), ReferenceKind::Tileset);
    assert_eq!(classify("SUB/TILESET.JSON"), ReferenceKind::Tileset);
    assert_eq!(classify("tiles/0.b3dm"), ReferenceKind::Content);
    assert_eq!(classify("tiles/0.b3dm?v=1#x"), ReferenceKind::Content);

    assert_eq!(scan.references.len(), 3);
    assert_eq!(scan.references[0].kind, ReferenceKind::Tileset);
    assert_eq!(scan.references[1].kind, ReferenceKind::Tileset);
    assert_eq!(scan.references[2].kind, ReferenceKind::Content);
}

#[test]
fn implicit_tiling_tiles_contribute_no_literal_uri() {
    let scan = scan(
        r#"{
          "root": {
            "content": { "uri": "content/{level}_{x}_{y}.b3dm" },
            "extensions": {
              "3DTILES_implicit_tiling": {
                "subdivisionScheme": "QUADTREE",
                "subtreeLevels": 5,
                "maximumLevel": 10,
                "subtrees": { "uri": "subtrees/{level}_{x}_{y}.subtree" }
              }
            },
            "children": [ { "content": { "uri": "explicit.b3dm" } } ]
          }
        }"#,
    );

    assert!(
        scan.references.is_empty() || scan.references.iter().all(|r| r.uri == "explicit.b3dm"),
        "the implicit content template must not be treated as a downloadable URI"
    );
    assert_eq!(scan.implicits.len(), 1);
    assert_eq!(
        scan.implicits[0].content_templates,
        vec!["content/{level}_{x}_{y}.b3dm".to_owned()]
    );
}

#[test]
fn accepts_the_1_1_core_implicit_tiling_property() {
    // Real 3D Tiles 1.1 tilesets use the core property, not the 1.0
    // extension. Regression test for treating the content template as a
    // file name.
    let scan = scan(
        r#"{
          "asset": { "version": "1.1" },
          "root": {
            "content": { "uri": "content/content_{level}__{x}_{y}.glb" },
            "implicitTiling": {
              "subdivisionScheme": "QUADTREE",
              "subtreeLevels": 3,
              "availableLevels": 6,
              "subtrees": { "uri": "subtrees/{level}.{x}.{y}.subtree" }
            }
          }
        }"#,
    );

    assert!(
        scan.references.is_empty(),
        "the content template must not be downloaded literally, but got {:?}",
        scan.references
            .iter()
            .map(|reference| reference.uri.as_str())
            .collect::<Vec<_>>()
    );
    assert_eq!(scan.implicits.len(), 1);
    assert_eq!(
        scan.implicits[0].content_templates,
        vec!["content/content_{level}__{x}_{y}.glb".to_owned()]
    );
}

#[test]
fn deeply_nested_tiles_are_walked_without_recursion() {
    // Each tile nests an object inside an array, and serde_json caps container
    // nesting at 128 levels, so ~60 tiles is as deep as a *parsed* document
    // can be. The walk is iterative regardless: no tile tree can overflow the
    // stack.
    const DEPTH: usize = 60;

    let mut json = String::from(r#"{"root":{"content":{"uri":"deep.b3dm"},"children":["#);
    for _ in 0..DEPTH {
        json.push_str(r#"{"content":{"uri":"deep.b3dm"},"children":["#);
    }
    // Close every inner tile, then the root's children array, the root, and
    // the wrapper object.
    json.push_str(&"]}".repeat(DEPTH));
    json.push_str("]}}");

    let scan = scan(&json);
    assert_eq!(scan.references.len(), DEPTH + 1);
}

#[test]
fn tiles_are_walked_in_document_order() {
    let scan = scan(
        r#"{
          "root": {
            "children": [
              { "content": { "uri": "1" },
                "children": [ { "content": { "uri": "2" } }, { "content": { "uri": "3" } } ] },
              { "content": { "uri": "4" }, "contents": [ { "uri": "5" }, {}, { "url": "6" } ] }
            ]
          }
        }"#,
    );
    let uris: Vec<&str> = scan.references.iter().map(|r| r.uri.as_str()).collect();
    assert_eq!(uris, vec!["1", "2", "3", "4", "5", "6"]);
}

#[test]
fn the_extension_wins_over_the_core_property() {
    let tileset = tileset(
        r#"{
          "root": {
            "implicitTiling": { "subdivisionScheme": "OCTREE" },
            "extensions": { "3DTILES_implicit_tiling": { "subdivisionScheme": "QUADTREE" } }
          }
        }"#,
    );
    let root = tileset.root.as_ref().expect("has a root");
    assert!(root.extension(IMPLICIT_TILING_EXTENSION).is_some());
    assert!(root.extension("3DTILES_metadata").is_none());
    let source = root.implicit_source().expect("is implicit");
    assert_eq!(
        source.raw.get("subdivisionScheme").and_then(|v| v.as_str()),
        Some("QUADTREE")
    );
    assert!(source.content_templates.is_empty());
}

#[test]
fn a_tileset_without_a_root_names_nothing() {
    let scan = Tileset::default().scan();
    assert!(scan.references.is_empty());
    assert!(scan.implicits.is_empty());
}

#[test]
fn only_the_path_decides_what_a_uri_is() {
    assert_eq!(classify("a.json#b3dm"), ReferenceKind::Tileset);
    assert_eq!(classify("a.b3dm?f=x.json"), ReferenceKind::Content);
    assert_eq!(classify(".json"), ReferenceKind::Tileset);
    assert_eq!(classify("json"), ReferenceKind::Content);
    assert_eq!(classify(""), ReferenceKind::Content);
}

#[test]
fn content_that_is_named_in_odd_ways_is_skipped() {
    let tileset = tileset(
        r#"{
          "root": {
            "extensions": {
              "3DTILES_multiple_contents": {
                "contents": [ { "uri": 5, "url": "a" }, 7, { "url": "b" }, {} ]
              }
            }
          }
        }"#,
    );
    let root = tileset.root.as_ref().expect("has a root");
    assert_eq!(root.content_uris(), vec!["b"]);
}

#[test]
fn json_values_are_read_by_type() {
    let value = json(&parse(
        r#"{"n": 7, "neg": -1, "half": 0.5, "t": "x", "b": true, "a": [1, 2], "o": {}, "z": null}"#,
    ));
    assert_eq!(value.get("n").and_then(|v| v.as_u64()), Some(7));
    assert_eq!(value.get("neg").and_then(|v| v.as_u64()), None);
    assert_eq!(value.get("half").and_then(|v| v.as_u64()), None);
    assert_eq!(value.get("t").and_then(|v| v.as_str()), Some("x"));
    assert_eq!(value.get("b").and_then(|v| v.as_bool()), Some(true));
    assert_eq!(
        value.get("a").and_then(|v| v.as_array()).map(|a| a.len()),
        Some(2)
    );
    assert!(matches!(value.get("z"), Some(Json::Null)));
    assert!(value.get("missing").is_none());
    assert!(Json::Null.get("n").is_none());
    let copy = value.duplicate();
    assert_eq!(copy.get("t").and_then(|v| v.as_str()), Some("x"));
}
