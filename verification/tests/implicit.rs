use tileset_downloader::error::{Error, Result};
use tileset_downloader::implicit::{
    content_template, decode_2d, decode_3d, decode_local, level_offset, morton_2d, morton_3d,
    substitute, Coordinates, ImplicitTiling, SubdivisionScheme, SubtreeExpansion, MAX_LEVELS,
};
use tileset_downloader::json::Json;
use tileset_downloader::subtree::{
    split_subtree_document, BufferHeader, BufferStep, BufferViewHeader, LoadedBuffers,
    SubtreeDocument,
};
use tileset_downloader::tileset::ImplicitSource;
use tileset_downloader::web_url::Url;

fn url(input: &str) -> Url {
    Url::parse(input).expect("test URL")
}

fn json(value: &serde_json::Value) -> Json {
    match value {
        serde_json::Value::Null => Json::Null,
        serde_json::Value::Bool(flag) => Json::Bool(*flag),
        serde_json::Value::Number(number) => Json::Number(number.as_u64()),
        serde_json::Value::String(text) => Json::Text(text.clone()),
        serde_json::Value::Array(values) => Json::Array(values.iter().map(json).collect()),
        serde_json::Value::Object(map) => Json::Object(entries(map)),
    }
}

fn entries(map: &serde_json::Map<String, serde_json::Value>) -> Vec<(String, Json)> {
    map.iter()
        .map(|(key, value)| (key.clone(), json(value)))
        .collect()
}

fn parse(text: &str) -> serde_json::Value {
    serde_json::from_str(text).expect("fixture should parse")
}

fn text_of(value: &serde_json::Value, key: &str) -> Option<String> {
    value.get(key).and_then(|v| v.as_str()).map(str::to_owned)
}

fn size_of(value: &serde_json::Value, key: &str) -> usize {
    value.get(key).and_then(|v| v.as_u64()).unwrap_or(0) as usize
}

fn list_of<'a>(value: &'a serde_json::Value, key: &str) -> Vec<&'a serde_json::Value> {
    match value.get(key).and_then(|v| v.as_array()) {
        Some(values) => values.iter().collect(),
        None => Vec::new(),
    }
}

fn document(bytes: &[u8]) -> SubtreeDocument {
    let value: serde_json::Value =
        serde_json::from_slice(bytes).expect("subtree JSON should parse");
    SubtreeDocument {
        buffers: list_of(&value, "buffers")
            .into_iter()
            .map(|b| BufferHeader {
                uri: text_of(b, "uri"),
            })
            .collect(),
        buffer_views: list_of(&value, "bufferViews")
            .into_iter()
            .map(|v| BufferViewHeader {
                buffer: size_of(v, "buffer"),
                byte_offset: size_of(v, "byteOffset"),
                byte_length: size_of(v, "byteLength"),
            })
            .collect(),
        tile_availability: value.get("tileAvailability").map_or(Json::Null, json),
        content_availability: value
            .get("contentAvailability")
            .and_then(|v| v.as_array())
            .map(|a| a.iter().map(json).collect()),
        child_subtree_availability: value.get("childSubtreeAvailability").map_or(Json::Null, json),
        content_uri: text_of(&value, "contentUri"),
        subtree_uri: text_of(&value, "subtreeUri"),
        extensions: value.get("extensions").and_then(|v| v.as_object()).map(entries),
    }
}

fn source(extension: &str, templates: &[&str]) -> ImplicitSource {
    ImplicitSource {
        raw: json(&parse(extension)),
        content_templates: templates.iter().map(|t| (*t).to_owned()).collect(),
    }
}

fn make_tiling(extension: &str, templates: &[&str]) -> ImplicitTiling {
    ImplicitTiling::parse(
        &url("https://example.com/tiles/tileset.json"),
        &source(extension, templates),
    )
    .expect("extension should parse")
}

fn quadtree(levels: u64, available_levels: u64, template: &str) -> ImplicitTiling {
    make_tiling(
        &format!(
            r#"{{
                "subdivisionScheme": "QUADTREE",
                "subtreeLevels": {levels},
                "availableLevels": {available_levels},
                "subtrees": {{ "uri": "subtrees/{{level}}_{{x}}_{{y}}.subtree" }}
            }}"#
        ),
        &[template],
    )
}

/// Build a binary subtree document from a JSON chunk and a binary chunk.
fn binary_subtree(json: &str, binary: &[u8]) -> Vec<u8> {
    let mut out = Vec::new();
    out.extend_from_slice(b"subt");
    out.extend_from_slice(&1u32.to_le_bytes());
    out.extend_from_slice(&(json.len() as u64).to_le_bytes());
    out.extend_from_slice(&(binary.len() as u64).to_le_bytes());
    out.extend_from_slice(json.as_bytes());
    out.extend_from_slice(binary);
    out
}

/// Expand a subtree whose external buffers all hold `external`.
fn expand_at(
    tiling: &ImplicitTiling,
    coordinates: Coordinates,
    bytes: &[u8],
    external: &[u8],
) -> Result<SubtreeExpansion> {
    let subtree_url = url("https://example.com/tiles/subtrees/0_0_0.subtree");
    let (text, binary) = split_subtree_document(bytes, &subtree_url)?;
    let document = document(text);
    let mut loaded = LoadedBuffers::new();
    loop {
        match loaded.step(&document, binary, &subtree_url)? {
            BufferStep::Done => break,
            BufferStep::Fetch(source) => loaded.supply(source, external.to_vec()),
        }
    }
    tiling.expand_subtree(coordinates, &subtree_url, &document, loaded)
}

fn expand(tiling: &ImplicitTiling, bytes: &[u8]) -> Result<SubtreeExpansion> {
    expand_at(tiling, Coordinates::root(), bytes, &[])
}

fn paths(urls: &[Url]) -> Vec<String> {
    urls.iter().map(|url| url.path().to_owned()).collect()
}

#[test]
fn morton_round_trips() {
    for level in 0..7u32 {
        let dimension = 1u32 << level;
        for x in 0..dimension {
            for y in 0..dimension {
                assert_eq!(decode_2d(morton_2d(x, y)), (x, y), "2D at {x},{y}");
                assert_eq!(decode_3d(morton_3d(x, y, 0)), (x, y, 0), "3D at {x},{y},0");
            }
        }
    }
}

#[test]
fn morton_matches_the_spec_example() {
    // Z-order for a quadtree: (0,0)=0, (1,0)=1, (0,1)=2, (1,1)=3.
    assert_eq!(morton_2d(0, 0), 0);
    assert_eq!(morton_2d(1, 0), 1);
    assert_eq!(morton_2d(0, 1), 2);
    assert_eq!(morton_2d(1, 1), 3);
}

#[test]
fn bit_counts_match_the_schema() {
    // "a quadtree with subtreeLevels = 2 will have 5 nodes (1 root and 4 children)"
    let tiling = quadtree(2, 3, "content/{level}_{x}_{y}.b3dm");
    assert_eq!(tiling.tile_bit_count(), 5);

    let octree = make_tiling(
        r#"{
            "subdivisionScheme": "OCTREE",
            "subtreeLevels": 2,
            "availableLevels": 3,
            "subtrees": { "uri": "subtrees/{level}_{x}_{y}_{z}.subtree" }
        }"#,
        &[],
    );
    // (8^2 - 1) / 7 = 9
    assert_eq!(octree.tile_bit_count(), 9);
}

#[test]
fn level_offsets_follow_the_formula() {
    assert_eq!(level_offset(4, 0), 0);
    assert_eq!(level_offset(4, 1), 1);
    assert_eq!(level_offset(4, 2), 5);
    assert_eq!(level_offset(8, 2), 9);
}

#[test]
fn templating_uses_global_coordinates() {
    let tiling = quadtree(2, 3, "content/{level}_{x}_{y}.b3dm");
    let coordinates = Coordinates {
        level: 4,
        x: 5,
        y: 6,
        z: 0,
    };
    assert_eq!(
        tiling
            .content_url(coordinates, "content/{level}_{x}_{y}.b3dm")
            .expect("resolves")
            .as_str(),
        "https://example.com/tiles/content/4_5_6.b3dm"
    );
    assert_eq!(
        tiling.subtree_url(coordinates).expect("resolves").as_str(),
        "https://example.com/tiles/subtrees/4_5_6.subtree"
    );
}

#[test]
fn expands_a_constant_quadtree_subtree() {
    let tiling = quadtree(2, 4, "content/{level}_{x}_{y}.b3dm");
    let expansion = expand(
        &tiling,
        br#"{
            "tileAvailability": { "constant": 1 },
            "contentAvailability": [ { "constant": 1 } ],
            "childSubtreeAvailability": { "constant": 0 }
        }"#,
    )
    .expect("expands");

    assert_eq!(expansion.available_tiles, 5, "1 root + 4 children");
    assert_eq!(
        paths(&expansion.content_urls),
        vec![
            "/tiles/content/0_0_0.b3dm",
            "/tiles/content/1_0_0.b3dm",
            "/tiles/content/1_1_0.b3dm",
            "/tiles/content/1_0_1.b3dm",
            "/tiles/content/1_1_1.b3dm",
        ]
    );
    assert!(expansion.child_subtrees.is_empty());
}

#[test]
fn respects_available_levels() {
    let tiling = quadtree(2, 1, "content/{level}_{x}_{y}.b3dm");
    let expansion = expand(
        &tiling,
        br#"{
            "tileAvailability": { "constant": 1 },
            "contentAvailability": [ { "constant": 1 } ],
            "childSubtreeAvailability": { "constant": 1 }
        }"#,
    )
    .expect("expands");

    assert_eq!(expansion.available_tiles, 1, "only level 0 is available");
    assert_eq!(expansion.content_urls.len(), 1);
    assert!(
        expansion.child_subtrees.is_empty(),
        "level 2 is past availableLevels"
    );
}

#[test]
fn enumerates_child_subtrees_in_morton_order() {
    let tiling = quadtree(1, 5, "content/{level}_{x}_{y}.b3dm");
    let expansion = expand(
        &tiling,
        br#"{
            "tileAvailability": { "constant": 1 },
            "contentAvailability": [ { "constant": 1 } ],
            "childSubtreeAvailability": { "constant": 1 }
        }"#,
    )
    .expect("expands");

    let paths: Vec<String> = expansion
        .child_subtrees
        .iter()
        .map(|(_, url)| url.path().to_owned())
        .collect();
    assert_eq!(
        paths,
        vec![
            "/tiles/subtrees/1_0_0.subtree",
            "/tiles/subtrees/1_1_0.subtree",
            "/tiles/subtrees/1_0_1.subtree",
            "/tiles/subtrees/1_1_1.subtree",
        ]
    );
    assert_eq!(expansion.child_subtrees[3].0.x, 1);
    assert_eq!(expansion.child_subtrees[3].0.y, 1);
}

#[test]
fn reads_a_binary_subtree_bitstream() {
    let tiling = quadtree(2, 3, "content/{level}_{x}_{y}.b3dm");
    // Only the subtree root (index 0) is available: that is bit 0 of byte 0,
    // i.e. the least significant bit. Getting this wrong is the classic bug.
    let document = binary_subtree(
        r#"{
            "buffers": [ { "byteLength": 1 } ],
            "bufferViews": [ { "buffer": 0, "byteOffset": 0, "byteLength": 1 } ],
            "tileAvailability": { "bitstream": 0 },
            "contentAvailability": [ { "constant": 1 } ],
            "childSubtreeAvailability": { "constant": 0 }
        }"#,
        &[0b0000_0001],
    );
    let expansion = expand(&tiling, &document).expect("expands");

    assert_eq!(expansion.available_tiles, 1);
    assert_eq!(expansion.content_urls.len(), 1);
    assert!(expansion.content_urls[0]
        .path()
        .ends_with("content/0_0_0.b3dm"));
}

#[test]
fn reads_a_base64_bitstream() {
    // 0b00001001 -> bits 0 and 3 set. Base64 of that single byte is "CQ==".
    let tiling = quadtree(2, 3, "content/{level}_{x}_{y}.b3dm");
    let expansion = expand(
        &tiling,
        br#"{
            "tileAvailability": { "bitstream": "CQ==" },
            "contentAvailability": [ { "bitstream": "CQ==" } ],
            "childSubtreeAvailability": { "constant": 0 }
        }"#,
    )
    .expect("expands");

    // Bit 0 is level 0 (0,0); bit 3 is tile index 3, which is level 1,
    // Morton index 2, decoding to (x=0, y=1).
    assert_eq!(
        paths(&expansion.content_urls),
        vec!["/tiles/content/0_0_0.b3dm", "/tiles/content/1_0_1.b3dm"]
    );
}

#[test]
fn missing_content_availability_falls_back_to_tile_availability() {
    // subtreeLevels = 1 means a subtree holds one tile: its own root.
    let tiling = quadtree(1, 2, "content/{level}_{x}_{y}.b3dm");
    let expansion = expand(
        &tiling,
        br#"{
            "tileAvailability": { "constant": 1 },
            "childSubtreeAvailability": { "constant": 0 }
        }"#,
    )
    .expect("expands");

    assert_eq!(expansion.available_tiles, 1);
    assert_eq!(
        expansion.content_urls.len(),
        1,
        "an absent contentAvailability must not silently download nothing"
    );
    assert!(expansion.assumed_content);
}

#[test]
fn rejects_a_bitstream_of_the_wrong_length() {
    let tiling = quadtree(2, 3, "content/{level}_{x}_{y}.b3dm");
    // 5 bits are required, so a 1-byte bitstream is fine; 4 bytes is not.
    let document = binary_subtree(
        r#"{
            "buffers": [ { "byteLength": 4 } ],
            "bufferViews": [ { "buffer": 0, "byteOffset": 0, "byteLength": 4 } ],
            "tileAvailability": { "bitstream": 0 },
            "childSubtreeAvailability": { "constant": 0 }
        }"#,
        &[0, 0, 0, 0],
    );
    let error = expand(&tiling, &document).expect_err("must reject");
    assert!(matches!(error, Error::Availability { .. }), "got {error:?}");
}

#[test]
fn rejects_unsupported_subdivision_schemes() {
    let error = ImplicitTiling::parse(
        &url("https://example.com/tileset.json"),
        &source(
            r#"{
                "subdivisionScheme": "HEXTREE",
                "subtreeLevels": 1,
                "availableLevels": 1,
                "subtrees": { "uri": "s/{level}_{x}_{y}.subtree" }
            }"#,
            &[],
        ),
    )
    .expect_err("must reject");
    assert!(matches!(error, Error::UnsupportedSubdivision { .. }));
}

#[test]
fn rejects_oversized_subtree_levels() {
    let error = ImplicitTiling::parse(
        &url("https://example.com/tileset.json"),
        &source(
            r#"{
                "subdivisionScheme": "QUADTREE",
                "subtreeLevels": 20,
                "availableLevels": 21,
                "subtrees": { "uri": "s/{level}_{x}_{y}.subtree" }
            }"#,
            &[],
        ),
    )
    .expect_err("must reject");
    assert!(matches!(error, Error::Implicit { .. }));
}

#[test]
fn accepts_the_1_0_maximum_level_spelling() {
    let tiling = make_tiling(
        r#"{
            "subdivisionScheme": "QUADTREE",
            "subtreeLevels": 2,
            "maximumLevel": 3,
            "subtrees": { "uri": "subtrees/{level}_{x}_{y}.subtree" }
        }"#,
        &["content/{level}_{x}_{y}.b3dm"],
    );
    assert_eq!(tiling.available_levels(), 4);
}

#[test]
fn a_subtree_content_uri_overrides_the_tileset_template() {
    let tiling = quadtree(1, 2, "content/{level}_{x}_{y}.b3dm");
    let expansion = expand(
        &tiling,
        br#"{
            "tileAvailability": { "constant": 1 },
            "contentAvailability": [ { "constant": 1 } ],
            "childSubtreeAvailability": { "constant": 0 },
            "contentUri": "override/{level}.b3dm"
        }"#,
    )
    .expect("expands");

    assert!(expansion.content_urls[0]
        .path()
        .starts_with("/tiles/override/"));
}

#[test]
fn plain_json_subtrees_are_accepted() {
    // No `subt` magic: the document is JSON with no binary chunk.
    let (json, binary) = split_subtree_document(
        br#"{"tileAvailability":{"constant":1}}"#,
        &url("https://example.com/s.subtree"),
    )
    .expect("splits");
    assert!(!json.is_empty());
    assert!(binary.is_empty());
}

#[test]
fn reads_a_legacy_subtree_uri_override() {
    let tiling = quadtree(1, 5, "content/{level}_{x}_{y}.b3dm");
    let expansion = expand(
        &tiling,
        br#"{
            "tileAvailability": { "constant": 1 },
            "contentAvailability": [ { "constant": 1 } ],
            "childSubtreeAvailability": { "constant": 1 },
            "subtreeUri": "other/{level}_{x}_{y}.subtree"
        }"#,
    )
    .expect("expands");

    // The override is relative to the subtree file, not the tileset.
    assert!(expansion.child_subtrees[0]
        .1
        .as_str()
        .starts_with("https://example.com/tiles/subtrees/other/"));
}

fn rejection(extension: &str) -> String {
    let error = ImplicitTiling::parse(
        &url("https://example.com/tileset.json"),
        &source(extension, &[]),
    )
    .expect_err("must reject");
    error.message()
}

#[test]
fn every_defect_of_a_declaration_is_named() {
    let at = "implicit tiling error in `https://example.com/tileset.json`: ";
    assert_eq!(
        rejection(r#"{}"#),
        "implicit tiling in `https://example.com/tileset.json` uses unsupported subdivision scheme ``"
    );
    assert_eq!(
        rejection(r#"{"subdivisionScheme": "quadtree"}"#),
        "implicit tiling in `https://example.com/tileset.json` uses unsupported subdivision scheme `quadtree`"
    );
    assert_eq!(
        rejection(r#"{"subdivisionScheme": "QUADTREE"}"#),
        format!("{at}`subtreeLevels` is missing")
    );
    assert_eq!(
        rejection(r#"{"subdivisionScheme": "QUADTREE", "subtreeLevels": 16}"#),
        format!("{at}`subtreeLevels` is 16, outside the supported range 1..=15")
    );
    assert_eq!(
        rejection(r#"{"subdivisionScheme": "OCTREE", "subtreeLevels": 0}"#),
        format!("{at}`subtreeLevels` is 0, outside the supported range 1..=9")
    );
    assert_eq!(
        rejection(r#"{"subdivisionScheme": "QUADTREE", "subtreeLevels": 1}"#),
        format!("{at}neither `availableLevels` nor `maximumLevel` is present")
    );
    assert_eq!(
        rejection(
            r#"{"subdivisionScheme": "QUADTREE", "subtreeLevels": 1, "availableLevels": 32}"#
        ),
        format!("{at}`availableLevels` is 32, expected 1..=31")
    );
    assert_eq!(
        rejection(
            r#"{"subdivisionScheme": "QUADTREE", "subtreeLevels": 1,
                "maximumLevel": 18446744073709551615}"#
        ),
        format!("{at}`availableLevels` is 0, expected 1..=31")
    );
    assert_eq!(
        rejection(
            r#"{"subdivisionScheme": "QUADTREE", "subtreeLevels": 1, "availableLevels": 31}"#
        ),
        format!("{at}`subtrees.uri` is missing")
    );
    assert_eq!(MAX_LEVELS, 31);
}

#[test]
fn schemes_have_their_factors() {
    assert_eq!(
        SubdivisionScheme::parse("QUADTREE"),
        Some(SubdivisionScheme::Quadtree)
    );
    assert_eq!(
        SubdivisionScheme::parse("OCTREE"),
        Some(SubdivisionScheme::Octree)
    );
    assert_eq!(SubdivisionScheme::parse("Octree"), None);
    assert_eq!(SubdivisionScheme::Quadtree.branching_factor(), 4);
    assert_eq!(SubdivisionScheme::Octree.branching_factor(), 8);
    assert_eq!(SubdivisionScheme::Quadtree.max_subtree_levels(), 15);
    assert_eq!(SubdivisionScheme::Octree.max_subtree_levels(), 9);
}

#[test]
fn morton_indices_interleave_bits() {
    assert_eq!(morton_2d(0b101, 0b011), 0b01_10_11);
    assert_eq!(morton_2d(0xffff, 0xffff), 0xffff_ffff);
    assert_eq!(morton_3d(1, 0, 0), 1);
    assert_eq!(morton_3d(0, 1, 0), 2);
    assert_eq!(morton_3d(0, 0, 1), 4);
    assert_eq!(morton_3d(0b11, 0b01, 0b10), 0b101_011);
    assert_eq!(morton_3d(1023, 1023, 1023), 0x3fff_ffff);
    assert_eq!(decode_2d(0xffff_ffff), (0xffff, 0xffff));
    assert_eq!(decode_3d(0x3fff_ffff), (1023, 1023, 1023));
    for index in [0u32, 1, 77, 123_456_789, u32::MAX] {
        let (x, y) = decode_2d(index);
        assert_eq!(morton_2d(x, y), index);
    }
    for index in [0u32, 1, 77, 123_456_789, 0x3fff_ffff] {
        let (x, y, z) = decode_3d(index);
        assert_eq!(morton_3d(x, y, z), index);
    }
}

#[test]
fn local_coordinates_depend_on_the_scheme() {
    assert_eq!(decode_local(SubdivisionScheme::Quadtree, 6), (2, 1, 0));
    assert_eq!(decode_local(SubdivisionScheme::Octree, 6), (0, 1, 1));
    let tile = Coordinates {
        level: 2,
        x: 2,
        y: 1,
        z: 1,
    };
    assert_eq!(tile.morton(SubdivisionScheme::Quadtree), 6);
    assert_eq!(tile.morton(SubdivisionScheme::Octree), 14);
    assert_eq!(
        Coordinates::root(),
        Coordinates {
            level: 0,
            x: 0,
            y: 0,
            z: 0
        }
    );
}

#[test]
fn levels_follow_each_other_without_a_gap() {
    for branching in [4u64, 8] {
        for level in 0..10u64 {
            assert_eq!(
                level_offset(branching, level + 1),
                level_offset(branching, level) + branching.pow(level as u32)
            );
        }
    }
}

#[test]
fn placeholders_are_replaced_wherever_they_stand() {
    let tile = Coordinates {
        level: 12,
        x: 0,
        y: 345,
        z: 6,
    };
    assert_eq!(substitute("{level}/{x}/{y}/{z}", tile), "12/0/345/6");
    assert_eq!(substitute("{x}{x}", tile), "00");
    assert_eq!(substitute("plain.b3dm", tile), "plain.b3dm");
    assert_eq!(substitute("{w}/{X}", tile), "{w}/{X}");
}

#[test]
fn one_template_serves_every_content() {
    assert_eq!(content_template(&vec!["a", "b"], 1), Some("b"));
    assert_eq!(content_template(&vec!["a", "b"], 2), None);
    assert_eq!(content_template(&vec!["a"], 7), Some("a"));
    assert_eq!(content_template(&vec![], 0), None);
}

#[test]
fn several_contents_have_their_own_availability() {
    let tiling = make_tiling(
        r#"{
            "subdivisionScheme": "QUADTREE",
            "subtreeLevels": 2,
            "availableLevels": 2,
            "subtrees": { "uri": "s/{level}_{x}_{y}.subtree" }
        }"#,
        &["a/{level}_{x}_{y}.glb", "b/{level}_{x}_{y}.glb"],
    );
    // Tiles 0, 2 and 4 exist; content 0 is at 0 and 1, content 1 at 2 and 4.
    let expansion = expand(
        &tiling,
        br#"{
            "tileAvailability": { "bitstream": "FQ==" },
            "contentAvailability": [ { "bitstream": "Aw==" }, { "bitstream": "FA==" } ],
            "childSubtreeAvailability": { "constant": false }
        }"#,
    )
    .expect("expands");
    assert_eq!(expansion.available_tiles, 3);
    assert_eq!(
        paths(&expansion.content_urls),
        vec![
            "/tiles/a/0_0_0.glb",
            "/tiles/b/1_1_0.glb",
            "/tiles/b/1_1_1.glb"
        ]
    );
    assert!(!expansion.assumed_content);
    assert!(expansion.unresolved.is_empty());
}

#[test]
fn octree_tiles_have_three_coordinates() {
    let tiling = make_tiling(
        r#"{
            "subdivisionScheme": "OCTREE",
            "subtreeLevels": 1,
            "availableLevels": 9,
            "subtrees": { "uri": "s/{level}_{x}_{y}_{z}.subtree" }
        }"#,
        &["c/{level}_{x}_{y}_{z}.glb"],
    );
    let at = Coordinates {
        level: 3,
        x: 5,
        y: 6,
        z: 7,
    };
    let expansion = expand_at(
        &tiling,
        at,
        br#"{
            "tileAvailability": { "constant": true },
            "contentAvailability": [ { "constant": 1 } ],
            "childSubtreeAvailability": { "bitstream": "gA==" }
        }"#,
        &[],
    )
    .expect("expands");
    assert_eq!(paths(&expansion.content_urls), vec!["/tiles/c/3_5_6_7.glb"]);
    assert_eq!(expansion.child_subtrees.len(), 1);
    assert_eq!(
        expansion.child_subtrees[0].0,
        Coordinates {
            level: 4,
            x: 11,
            y: 13,
            z: 15
        }
    );
    assert_eq!(
        expansion.child_subtrees[0].1.path(),
        "/tiles/s/4_11_13_15.subtree"
    );
}

#[test]
fn a_content_uri_that_does_not_resolve_is_left_out() {
    let tiling = quadtree(1, 2, "https://[{level}/x");
    let expansion = expand(
        &tiling,
        br#"{
            "tileAvailability": { "constant": 1 },
            "childSubtreeAvailability": { "constant": 0 }
        }"#,
    )
    .expect("expands");
    assert_eq!(expansion.available_tiles, 1);
    assert!(expansion.content_urls.is_empty());
    assert_eq!(expansion.unresolved, vec!["https://[0/x"]);
}

#[test]
fn external_buffers_are_fetched_and_listed() {
    let tiling = quadtree(2, 3, "content/{level}_{x}_{y}.b3dm");
    let document = binary_subtree(
        r#"{
            "buffers": [ {}, { "uri": "bits/0.bin" } ],
            "bufferViews": [ { "buffer": 1, "byteOffset": 1, "byteLength": 1 },
                             { "buffer": 0, "byteLength": 2 } ],
            "tileAvailability": { "bitstream": 0 },
            "contentAvailability": [ { "bufferView": 0 } ],
            "childSubtreeAvailability": { "bufferView": 1 }
        }"#,
        &[0b0000_0010, 0b0000_0000],
    );
    let expansion =
        expand_at(&tiling, Coordinates::root(), &document, &[0xff, 0b0000_1000]).expect("expands");
    assert_eq!(
        expansion.external_buffers[0].as_str(),
        "https://example.com/tiles/subtrees/bits/0.bin"
    );
    assert_eq!(expansion.external_buffers.len(), 1);
    assert_eq!(
        paths(&expansion.content_urls),
        vec!["/tiles/content/1_0_1.b3dm"]
    );
    assert_eq!(
        expansion.child_subtrees[0].1.path(),
        "/tiles/subtrees/2_1_0.subtree"
    );
}

fn expansion_error(bytes: &[u8]) -> String {
    let tiling = quadtree(2, 3, "c.b3dm");
    expand(&tiling, bytes).expect_err("must reject").message()
}

#[test]
fn every_defect_of_a_subtree_is_named() {
    let at = "malformed implicit tiling data in `https://example.com/tiles/subtrees/0_0_0.subtree`: ";
    assert_eq!(
        expansion_error(b"subt"),
        format!("{at}binary subtree is 4 bytes, shorter than the 24-byte header")
    );
    let mut cut = binary_subtree("{}", &[1, 2, 3]);
    cut.pop();
    assert_eq!(
        expansion_error(&cut),
        format!("{at}header claims 29 bytes but the document is 28 bytes")
    );
    assert_eq!(
        expansion_error(br#"{"buffers": [{}, {}]}"#),
        format!("{at}buffer 1 has no `uri`; only buffer 0 may be the binary chunk")
    );
    assert_eq!(
        expansion_error(br#"{"buffers": [], "bufferViews": [{"buffer": 3, "byteLength": 1}]}"#),
        format!("{at}bufferView 0 refers to missing buffer 3")
    );
    assert_eq!(
        expansion_error(
            br#"{"buffers": [{}],
                 "bufferViews": [{"byteOffset": 18446744073709551615, "byteLength": 1}]}"#
        ),
        format!("{at}bufferView 0 length overflows")
    );
    assert_eq!(
        expansion_error(
            br#"{"buffers": [{}], "bufferViews": [{"byteOffset": 2, "byteLength": 5}]}"#
        ),
        format!("{at}bufferView 0 needs bytes 2..7 but buffer 0 is 0 bytes")
    );
    assert_eq!(
        expansion_error(br#"{}"#),
        format!("{at}tileAvailability: neither `bitstream` nor `constant` is present")
    );
    assert_eq!(
        expansion_error(br#"{"tileAvailability": {"bitstream": true}}"#),
        format!("{at}tileAvailability: `bitstream` is neither a bufferView index nor a base64 string")
    );
    assert_eq!(
        expansion_error(br#"{"tileAvailability": {"bitstream": 4}}"#),
        format!("{at}tileAvailability: bufferView 4 does not exist")
    );
    assert_eq!(
        expansion_error(
            br#"{"buffers": [{}], "bufferViews": [{"byteLength": 0}],
                 "tileAvailability": {"bufferView": 0}}"#
        ),
        format!("{at}tileAvailability: bufferView 0 is 0 bytes but 1 are required")
    );
    assert_eq!(
        expansion_error(br#"{"tileAvailability": {"bitstream": "CQ"}}"#),
        format!("{at}tileAvailability: `bitstream` is not valid base64 (Invalid padding)")
    );
    assert_eq!(
        expansion_error(br#"{"tileAvailability": {"bitstream": "AAAA"}}"#),
        format!("{at}tileAvailability: bitstream is 3 bytes but 1 are required for 5 bits")
    );
    assert_eq!(
        expansion_error(
            br#"{"tileAvailability": {"constant": 1},
                 "contentAvailability": [{"constant": 1}, {}]}"#
        ),
        format!("{at}contentAvailability[1]: neither `bitstream` nor `constant` is present")
    );
    assert_eq!(
        expansion_error(
            br#"{"tileAvailability": {"constant": 1},
                 "childSubtreeAvailability": {"bitstream": "AA=="}}"#
        ),
        format!("{at}childSubtreeAvailability: bitstream is 1 bytes but 2 are required for 16 bits")
    );
}

#[test]
fn the_1_0_extension_holds_content_availability() {
    let tiling = quadtree(1, 1, "c/{level}.b3dm");
    let expansion = expand(
        &tiling,
        br#"{
            "tileAvailability": { "constant": 1 },
            "childSubtreeAvailability": { "constant": 0 },
            "extensions": { "3DTILES_multiple_contents": {
                "contentAvailability": [ { "constant": 0 }, { "constant": 2 } ] } }
        }"#,
    )
    .expect("expands");
    assert!(!expansion.assumed_content);
    assert_eq!(paths(&expansion.content_urls), vec!["/tiles/c/0.b3dm"]);
}

#[test]
fn an_unreadable_constant_means_nothing_is_there() {
    let tiling = quadtree(1, 1, "c/{level}.b3dm");
    let expansion = expand(
        &tiling,
        br#"{
            "tileAvailability": { "constant": "yes" },
            "childSubtreeAvailability": { "constant": null }
        }"#,
    )
    .expect("expands");
    assert_eq!(expansion.available_tiles, 0);
    assert!(expansion.content_urls.is_empty());
}

#[test]
fn a_container_gives_back_its_chunks() {
    let at = url("https://example.com/s.subtree");
    let container = binary_subtree("{\"a\":1}", &[9, 8, 7]);
    let (json, binary) = split_subtree_document(&container, &at).expect("splits");
    assert_eq!(json, b"{\"a\":1}");
    assert_eq!(binary, [9, 8, 7]);
    // Only the low half of each length counts.
    let mut wide = container.clone();
    wide[12] = 0xff;
    wide[20] = 0xff;
    let (json, binary) = split_subtree_document(&wide, &at).expect("splits");
    assert_eq!(json, b"{\"a\":1}");
    assert_eq!(binary, [9, 8, 7]);
    // Bytes behind the chunks are left alone.
    let mut longer = container;
    longer.push(1);
    let (_, binary) = split_subtree_document(&longer, &at).expect("splits");
    assert_eq!(binary, [9, 8, 7]);
}
