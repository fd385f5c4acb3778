//! The `tileset.json` object model and the walk over its tile tree.
//!
//! Only the fields that matter for downloading are modelled. Everything else
//! (bounding volumes, geometric error, transforms, metadata) is left out, which
//! is deliberate: the downloader must not care about what a tile *means*, only
//! about which URIs it names.
//!
//! Three ways of naming content are supported, because all three exist in the
//! wild:
//!
//! * `content.uri` (3D Tiles 1.1) and its 1.0 spelling `content.url`;
//! * `contents[].uri` (3D Tiles 1.1 multiple contents);
//! * `extensions."3DTILES_multiple_contents".contents[].uri` (the 1.0 extension).
//!
//! A `content.uri` that ends in `.json` is an **external tileset**: a reference
//! to another tileset document that must itself be fetched and walked, not a
//! file to download as a tile.

use vstd::prelude::*;

use crate::json;
use crate::json::{Json, JsonModel};
use crate::text;

verus! {

/// Extension key for implicit tiling (3D Tiles 1.1).
pub const IMPLICIT_TILING_EXTENSION: &'static str = "3DTILES_implicit_tiling";

/// Extension key for the 1.0 spelling of multiple contents.
pub const MULTIPLE_CONTENTS_EXTENSION: &'static str = "3DTILES_multiple_contents";

/// A parsed `tileset.json`.
#[derive(Debug, Default)]
pub struct Tileset {
    /// Tileset metadata; used only to log the version.
    pub asset: Asset,
    /// The root of the tile tree. Absent only in malformed tilesets.
    pub root: Option<Tile>,
    /// Extensions this tileset uses.
    pub extensions_used: Vec<String>,
    /// Extensions a consumer must understand.
    pub extensions_required: Vec<String>,
}

/// Tileset `asset` object.
#[derive(Debug, Clone, Default)]
pub struct Asset {
    /// Spec version the tileset claims, e.g. `"1.0"` or `"1.1"`.
    pub version: Option<String>,
    /// Tool that produced the tileset.
    pub generator: Option<String>,
}

/// A single tile: some content, some children, or both.
#[derive(Debug, Default)]
pub struct Tile {
    /// Singly named content (1.0: `content.url`, 1.1: `content.uri`).
    pub content: Option<Content>,
    /// Multiply named content (3D Tiles 1.1).
    pub contents: Vec<Content>,
    /// Child tiles.
    pub children: Vec<Tile>,
    /// 3D Tiles 1.1 core implicit tiling object (`tile.implicitTiling`).
    pub implicit_tiling: Option<Json>,
    /// Raw extensions, of which two are understood.
    pub extensions: Option<Vec<(String, Json)>>,
}

/// A tile's content reference.
#[derive(Debug, Clone, Default)]
pub struct Content {
    /// The content URI, whichever spelling the document used.
    pub uri: Option<String>,
}

/// What a referenced URI points at.
#[derive(Debug, Clone, Copy, PartialEq, Eq, Structural)]
pub enum ReferenceKind {
    /// A tile payload: `b3dm`, `i3dm`, `pnts`, `cmpt`, `glb`, `gltf`, ...
    Content,
    /// Another tileset document that must be walked in turn.
    Tileset,
}

/// A URI referenced by a tile.
#[derive(Debug, Clone)]
pub struct Reference {
    /// The URI exactly as written in the tileset, still relative.
    pub uri: String,
    /// Whether this is tile payload or another tileset document.
    pub kind: ReferenceKind,
}

/// A tile carrying the implicit tiling extension.
#[derive(Debug)]
pub struct ImplicitSource {
    /// The extension object, read later by [`crate::implicit`].
    pub raw: Json,
    /// The tile's `content.uri` value(s), still holding `{level}`/`{x}`/`{y}`
    /// placeholders. A subtree document may override these.
    pub content_templates: Vec<String>,
}

/// Everything one tileset document references.
#[derive(Debug, Default)]
pub struct Scan {
    /// Concrete URIs to fetch.
    pub references: Vec<Reference>,
    /// Implicit tiling subtrees to expand.
    pub implicits: Vec<ImplicitSource>,
}

/// What a [`Content`] stands for: its URI.
impl View for Content {
    type V = Option<Seq<char>>;

    open spec fn view(&self) -> Option<Seq<char>> {
        match self.uri {
            Some(uri) => Some(uri@),
            None => None,
        }
    }
}

/// What a [`Tile`] stands for.
#[verifier::ext_equal]
pub struct TileModel {
    pub content: Option<Option<Seq<char>>>,
    pub contents: Seq<Option<Seq<char>>>,
    pub children: Seq<TileModel>,
    pub implicit_tiling: Option<JsonModel>,
    pub extensions: Option<Seq<(Seq<char>, JsonModel)>>,
}

/// What a tile stands for.
pub open spec fn tile_model(tile: Tile) -> TileModel
    decreases tile,
{
    TileModel {
        content: match tile.content {
            Some(content) => Some(content@),
            None => None,
        },
        contents: tile.contents@.map_values(|content: Content| content@),
        children: Seq::new(
            tile.children@.len(),
            |i: int|
                if 0 <= i < tile.children@.len() {
                    tile_model(tile.children@[i])
                } else {
                    arbitrary()
                },
        ),
        implicit_tiling: match tile.implicit_tiling {
            Some(raw) => Some(raw@),
            None => None,
        },
        extensions: match tile.extensions {
            Some(entries) => Some(json::entries_view(entries@)),
            None => None,
        },
    }
}

impl View for Tile {
    type V = TileModel;

    open spec fn view(&self) -> TileModel {
        tile_model(*self)
    }
}

/// What a [`Reference`] stands for.
#[verifier::ext_equal]
pub struct ReferenceModel {
    pub uri: Seq<char>,
    pub kind: ReferenceKind,
}

impl View for Reference {
    type V = ReferenceModel;

    open spec fn view(&self) -> ReferenceModel {
        ReferenceModel { uri: self.uri@, kind: self.kind }
    }
}

/// What an [`ImplicitSource`] stands for.
#[verifier::ext_equal]
pub struct ImplicitSourceModel {
    pub raw: JsonModel,
    pub content_templates: Seq<Seq<char>>,
}

impl View for ImplicitSource {
    type V = ImplicitSourceModel;

    open spec fn view(&self) -> ImplicitSourceModel {
        ImplicitSourceModel {
            raw: self.raw@,
            content_templates: text::texts(self.content_templates@),
        }
    }
}

/// What a [`Scan`] stands for.
#[verifier::ext_equal]
pub struct ScanModel {
    pub references: Seq<ReferenceModel>,
    pub implicits: Seq<ImplicitSourceModel>,
}

impl View for Scan {
    type V = ScanModel;

    open spec fn view(&self) -> ScanModel {
        ScanModel {
            references: self.references@.map_values(|r: Reference| r@),
            implicits: self.implicits@.map_values(|s: ImplicitSource| s@),
        }
    }
}

/// The texts of a list of string slices.
pub open spec fn str_texts(strs: Seq<&str>) -> Seq<Seq<char>> {
    strs.map_values(|s: &str| s@)
}

/// Whether a URI names a tileset document: its path, up to the first `?` or `#`,
/// ends in `.json`.
pub open spec fn kind_of(uri: Seq<char>) -> ReferenceKind {
    if text::ends_with(text::lower(text::before_either(uri, '?', '#')), ".json"@) {
        ReferenceKind::Tileset
    } else {
        ReferenceKind::Content
    }
}

/// The URIs that are there, in order.
pub open spec fn present(uris: Seq<Option<Seq<char>>>) -> Seq<Seq<char>>
    decreases uris.len(),
{
    if uris.len() == 0 {
        Seq::empty()
    } else {
        match uris.last() {
            Some(uri) => present(uris.drop_last()).push(uri),
            None => present(uris.drop_last()),
        }
    }
}

/// The extension object of a tile under the given key.
pub open spec fn extension_of(tile: TileModel, name: Seq<char>) -> Option<JsonModel> {
    match tile.extensions {
        Some(entries) => json::lookup(entries, name),
        None => None,
    }
}

/// The URI of a content object of the multiple contents extension: its `uri`, or
/// its `url` where it has no `uri`.
pub open spec fn extension_uri(content: JsonModel) -> Option<Seq<char>> {
    json::string_of(
        match json::field(content, "uri"@) {
            Some(value) => Some(value),
            None => json::field(content, "url"@),
        },
    )
}

/// The content objects of the multiple contents extension.
pub open spec fn extension_contents(tile: TileModel) -> Seq<JsonModel> {
    match extension_of(tile, MULTIPLE_CONTENTS_EXTENSION@) {
        Some(extension) => match json::field(extension, "contents"@) {
            Some(JsonModel::Array(contents)) => contents,
            _ => Seq::empty(),
        },
        None => Seq::empty(),
    }
}

/// Every URI a tile names, across all three spellings.
pub open spec fn uris_of(tile: TileModel) -> Seq<Seq<char>> {
    present(
        seq![
            match tile.content {
                Some(uri) => uri,
                None => None,
            },
        ],
    ) + present(tile.contents) + present(
        extension_contents(tile).map_values(|content: JsonModel| extension_uri(content)),
    )
}

/// The implicit tiling declaration of a tile: the extension's, and where there is
/// none the core property's.
pub open spec fn implicit_of(tile: TileModel) -> Option<ImplicitSourceModel> {
    let raw = match extension_of(tile, IMPLICIT_TILING_EXTENSION@) {
        Some(extension) => Some(extension),
        None => tile.implicit_tiling,
    };
    match raw {
        Some(raw) => Some(ImplicitSourceModel { raw, content_templates: uris_of(tile) }),
        None => None,
    }
}

/// Nothing referenced.
pub open spec fn empty_scan() -> ScanModel {
    ScanModel { references: Seq::empty(), implicits: Seq::empty() }
}

/// What two parts of a document reference, one after the other.
pub open spec fn followed_by(a: ScanModel, b: ScanModel) -> ScanModel {
    ScanModel { references: a.references + b.references, implicits: a.implicits + b.implicits }
}

/// What one tile references by itself. With implicit tiling a tile's URIs are
/// templates, not references.
pub open spec fn own_scan(tile: TileModel) -> ScanModel {
    match implicit_of(tile) {
        Some(source) => ScanModel { references: Seq::empty(), implicits: seq![source] },
        None => ScanModel {
            references: uris_of(tile).map_values(
                |uri: Seq<char>| ReferenceModel { uri, kind: kind_of(uri) },
            ),
            implicits: Seq::empty(),
        },
    }
}

/// What a tile and everything below it references, in document order.
pub open spec fn scan_of(tile: TileModel) -> ScanModel
    decreases tile,
{
    followed_by(own_scan(tile), scan_of_all(tile.children))
}

/// What a list of tiles and everything below them references, in document order.
pub open spec fn scan_of_all(tiles: Seq<TileModel>) -> ScanModel
    decreases tiles,
{
    if tiles.len() == 0 {
        empty_scan()
    } else {
        followed_by(scan_of(tiles[0]), scan_of_all(tiles.skip(1)))
    }
}

/// What a whole document references.
pub open spec fn document_scan(root: Option<TileModel>) -> ScanModel {
    match root {
        Some(tile) => scan_of(tile),
        None => empty_scan(),
    }
}

/// What the root tile of a document stands for.
pub open spec fn root_of(tileset: Tileset) -> Option<TileModel> {
    match tileset.root {
        Some(tile) => Some(tile@),
        None => None,
    }
}

/// Decides whether a URI names a tileset document or tile payload.
///
/// Only the path is inspected, so query strings such as
/// `sub/tileset.json?token=...` still classify correctly.
pub fn classify(uri: &str) -> (kind: ReferenceKind)
    ensures
        kind == kind_of(uri@),
{
    let path = text::text_before_either(uri, '?', '#');
    let lowered = text::ascii_lower(path.as_str());
    if text::has_suffix(lowered.as_str(), ".json") {
        ReferenceKind::Tileset
    } else {
        ReferenceKind::Content
    }
}

impl Content {
    /// The URI, whichever spelling the document used.
    pub fn uri(&self) -> (out: Option<&str>)
        ensures
            match out {
                Some(uri) => self@ == Some(uri@),
                None => self@ is None,
            },
    {
        match &self.uri {
            Some(uri) => Some(uri.as_str()),
            None => None,
        }
    }
}

/// One more optional URI adds itself, if it is there.
pub proof fn lemma_present_one(uris: Seq<Option<Seq<char>>>, i: int)
    requires
        0 <= i < uris.len(),
    ensures
        present(uris.take(i + 1)) == (match uris[i] {
            Some(uri) => present(uris.take(i)).push(uri),
            None => present(uris.take(i)),
        }),
{
    assert(uris.take(i + 1).drop_last() =~= uris.take(i));
}

impl Tile {
    /// Looks up one extension object by key.
    pub fn extension(&self, name: &str) -> (out: Option<&Json>)
        ensures
            json::optional_view(out) == extension_of(self@, name@),
    {
        match &self.extensions {
            Some(entries) => json::find(entries, name),
            None => None,
        }
    }

    /// The content objects of the multiple contents extension.
    fn extension_contents(&self) -> (out: Option<&Vec<Json>>)
        ensures
            match out {
                Some(contents) => extension_contents(self@) == json::values_view(contents@),
                None => extension_contents(self@) == Seq::<JsonModel>::empty(),
            },
    {
        match self.extension(MULTIPLE_CONTENTS_EXTENSION) {
            Some(extension) => match extension.get("contents") {
                Some(contents) => contents.as_array(),
                None => None,
            },
            None => None,
        }
    }

    /// Every URI this tile names, across all three spellings.
    pub fn content_uris(&self) -> (uris: Vec<&str>)
        ensures
            str_texts(uris@) == uris_of(self@),
    {
        let mut uris: Vec<&str> = Vec::new();
        let ghost first = seq![
            match self@.content {
                Some(uri) => uri,
                None => None::<Seq<char>>,
            },
        ];
        proof {
            assert(first.take(0) =~= Seq::<Option<Seq<char>>>::empty());
            assert(first.take(1) =~= first);
            lemma_present_one(first, 0);
        }
        if let Some(content) = &self.content {
            if let Some(uri) = content.uri() {
                uris.push(uri);
            }
        }
        assert(str_texts(uris@) =~= present(first));

        let ghost models = self@.contents;
        assert(present(models.take(0)) =~= Seq::<Seq<char>>::empty());
        let mut i: usize = 0;
        while i < self.contents.len()
            invariant
                i <= self.contents.len(),
                models == self@.contents,
                str_texts(uris@) == present(first) + present(models.take(i as int)),
            decreases self.contents.len() - i,
        {
            let ghost before = str_texts(uris@);
            proof {
                lemma_present_one(models, i as int);
                assert(models[i as int] == self.contents@[i as int]@);
            }
            if let Some(uri) = self.contents[i].uri() {
                uris.push(uri);
                assert(str_texts(uris@) =~= before.push(uri@));
            }
            i += 1;
        }
        assert(models.take(models.len() as int) =~= models);
        let ghost head = present(first) + present(models);

        let ghost entries = extension_contents(self@);
        let ghost named = entries.map_values(|content: JsonModel| extension_uri(content));
        if let Some(contents) = self.extension_contents() {
            let mut k: usize = 0;
            assert(present(named.take(0)) =~= Seq::<Seq<char>>::empty());
            while k < contents.len()
                invariant
                    k <= contents.len(),
                    entries == json::values_view(contents@),
                    named == entries.map_values(|content: JsonModel| extension_uri(content)),
                    str_texts(uris@) == head + present(named.take(k as int)),
                decreases contents.len() - k,
            {
                let content = &contents[k];
                let ghost before = str_texts(uris@);
                proof {
                    lemma_present_one(named, k as int);
                    assert(entries[k as int] == content@);
                    assert(named[k as int] == extension_uri(content@));
                }
                let value = match content.get("uri") {
                    Some(value) => Some(value),
                    None => content.get("url"),
                };
                if let Some(value) = value {
                    if let Some(uri) = value.as_str() {
                        uris.push(uri);
                        assert(str_texts(uris@) =~= before.push(uri@));
                    }
                }
                k += 1;
            }
            assert(named.take(named.len() as int) =~= named);
        } else {
            assert(named =~= Seq::<Option<Seq<char>>>::empty());
            assert(head + present(named) =~= head);
        }
        uris
    }

    /// The implicit tiling declaration on this tile, if any.
    ///
    /// 3D Tiles 1.0 carried it in the `3DTILES_implicit_tiling` extension; 1.1
    /// promoted it to a core `implicitTiling` property. Both are accepted, with
    /// the extension winning when a document somehow has both, matching
    /// CesiumJS.
    pub fn implicit_source(&self) -> (source: Option<ImplicitSource>)
        ensures
            match source {
                Some(s) => implicit_of(self@) == Some(s@),
                None => implicit_of(self@) is None,
            },
    {
        let declared = match self.extension(IMPLICIT_TILING_EXTENSION) {
            Some(extension) => Some(extension),
            None => self.implicit_tiling.as_ref(),
        };
        match declared {
            Some(value) => {
                let raw = value.duplicate();
                // With implicit tiling these URIs are *templates*; they are filled
                // in per tile while expanding subtrees.
                let uris = self.content_uris();
                let content_templates = owned(&uris);
                Some(ImplicitSource { raw, content_templates })
            },
            None => None,
        }
    }
}

fn owned(strs: &Vec<&str>) -> (out: Vec<String>)
    ensures
        text::texts(out@) == str_texts(strs@),
{
    let mut out: Vec<String> = Vec::new();
    let mut i: usize = 0;
    while i < strs.len()
        invariant
            i <= strs.len(),
            text::texts(out@) == str_texts(strs@).take(i as int),
        decreases strs.len() - i,
    {
        let ghost before = text::texts(out@);
        out.push(strs[i].to_owned());
        assert(text::texts(out@) =~= before.push(strs@[i as int]@));
        assert(str_texts(strs@).take(i + 1) =~= str_texts(strs@).take(i as int).push(
            strs@[i as int]@,
        ));
        i += 1;
    }
    assert(str_texts(strs@).take(i as int) =~= str_texts(strs@));
    out
}

/// How many tiles there are from `tile` downwards.
pub open spec fn tile_count(tile: TileModel) -> nat
    decreases tile,
{
    1 + tile_count_all(tile.children)
}

/// How many tiles there are from each of `tiles` downwards.
pub open spec fn tile_count_all(tiles: Seq<TileModel>) -> nat
    decreases tiles,
{
    if tiles.len() == 0 {
        0
    } else {
        tile_count(tiles[0]) + tile_count_all(tiles.skip(1))
    }
}

/// What the tiles of a stack stand for, the top first.
spec fn pending(stack: Seq<&Tile>) -> Seq<TileModel> {
    stack.map_values(|tile: &Tile| tile@).reverse()
}

proof fn lemma_follow(a: ScanModel, b: ScanModel, c: ScanModel)
    ensures
        followed_by(followed_by(a, b), c) == followed_by(a, followed_by(b, c)),
        followed_by(a, empty_scan()) == a,
        followed_by(empty_scan(), a) == a,
{
    assert(followed_by(followed_by(a, b), c) =~= followed_by(a, followed_by(b, c)));
    assert(followed_by(a, empty_scan()) =~= a);
    assert(followed_by(empty_scan(), a) =~= a);
}

proof fn lemma_all_appended(a: Seq<TileModel>, b: Seq<TileModel>)
    ensures
        scan_of_all(a + b) == followed_by(scan_of_all(a), scan_of_all(b)),
        tile_count_all(a + b) == tile_count_all(a) + tile_count_all(b),
    decreases a.len(),
{
    if a.len() == 0 {
        assert(a + b =~= b);
        lemma_follow(scan_of_all(b), empty_scan(), empty_scan());
    } else {
        assert((a + b).skip(1) =~= a.skip(1) + b);
        lemma_all_appended(a.skip(1), b);
        lemma_follow(scan_of(a[0]), scan_of_all(a.skip(1)), scan_of_all(b));
    }
}

impl Tileset {
    /// Walks the whole tile tree and collects every URI it references.
    ///
    /// Iterative rather than recursive: quadtree tilesets routinely nest 20+
    /// levels, and a hostile one could nest far deeper.
    pub fn scan(&self) -> (scan: Scan)
        ensures
            scan@ == document_scan(root_of(*self)),
    {
        let mut scan = Scan { references: Vec::new(), implicits: Vec::new() };
        let mut stack: Vec<&Tile> = Vec::new();
        if let Some(root) = &self.root {
            stack.push(root);
            proof {
                assert(pending(stack@) =~= seq![root@]);
                assert(seq![root@].skip(1) =~= Seq::<TileModel>::empty());
                assert(scan_of_all(Seq::<TileModel>::empty()) == empty_scan());
                lemma_follow(scan_of(root@), empty_scan(), empty_scan());
                assert(scan_of_all(pending(stack@)) == scan_of(root@));
            }
        } else {
            assert(pending(stack@) =~= Seq::<TileModel>::empty());
        }
        let ghost whole = document_scan(root_of(*self));
        proof {
            assert(scan@ =~= empty_scan());
            lemma_follow(whole, empty_scan(), empty_scan());
        }
        while stack.len() > 0
            invariant
                followed_by(scan@, scan_of_all(pending(stack@))) == whole,
            decreases tile_count_all(pending(stack@)),
        {
            let ghost waiting = pending(stack@);
            let ghost done = scan@;
            let tile = stack[stack.len() - 1];
            stack.pop();
            let ghost rest = pending(stack@);
            proof {
                assert(waiting[0] == tile@);
                assert(waiting.skip(1) =~= rest);
                lemma_follow(done, scan_of(tile@), scan_of_all(rest));
            }
            match tile.implicit_source() {
                // With implicit tiling the tile's `content.uri` is a template
                // such as `content/{level}_{x}_{y}.b3dm`. Downloading it
                // literally would fetch a file with braces in its name, so the
                // tile is handed to the implicit expander instead.
                Some(implicit) => {
                    let ghost model = implicit@;
                    scan.implicits.push(implicit);
                    assert(scan@ =~= followed_by(done, own_scan(tile@)));
                },
                None => {
                    let uris = tile.content_uris();
                    let ghost named = own_scan(tile@).references;
                    let mut i: usize = 0;
                    assert(scan@.references =~= done.references + named.take(0));
                    while i < uris.len()
                        invariant
                            i <= uris.len(),
                            str_texts(uris@) == uris_of(tile@),
                            named == own_scan(tile@).references,
                            implicit_of(tile@) is None,
                            scan@.references == done.references + named.take(i as int),
                            scan@.implicits == done.implicits,
                        decreases uris.len() - i,
                    {
                        let uri = uris[i];
                        let ghost before = scan@.references;
                        assert(uris_of(tile@)[i as int] == uri@);
                        scan.references.push(
                            Reference { uri: uri.to_owned(), kind: classify(uri) },
                        );
                        proof {
                            assert(scan@.references =~= before.push(named[i as int]));
                            assert(done.references + named.take(i + 1) =~= before.push(
                                named[i as int],
                            ));
                            assert(scan@.implicits =~= done.implicits);
                        }
                        i += 1;
                    }
                    assert(named.take(named.len() as int) =~= named);
                    assert(scan@ =~= followed_by(done, own_scan(tile@)));
                },
            }
            // Pushed in reverse, so popping yields the children in document order
            // and the plan is reproducible run to run.
            let ghost children = tile@.children;
            let mut left: usize = tile.children.len();
            proof {
                assert(children.skip(children.len() as int) =~= Seq::<TileModel>::empty());
                assert(pending(stack@) =~= children.skip(left as int) + rest);
            }
            while left > 0
                invariant
                    left <= tile.children.len(),
                    children == tile@.children,
                    pending(stack@) == children.skip(left as int) + rest,
                decreases left,
            {
                let ghost before = stack@;
                left -= 1;
                stack.push(&tile.children[left]);
                proof {
                    assert(children[left as int] == tile.children@[left as int]@);
                    assert(pending(stack@) =~= seq![children[left as int]] + pending(before));
                    assert(children.skip(left as int) =~= seq![children[left as int]]
                        + children.skip(left + 1));
                    assert(pending(stack@) =~= children.skip(left as int) + rest);
                }
            }
            proof {
                assert(children.skip(0) =~= children);
                lemma_all_appended(children, rest);
                assert(tile_count_all(waiting) == tile_count(tile@) + tile_count_all(rest));
                assert(tile_count(tile@) == 1 + tile_count_all(children));
                lemma_follow(own_scan(tile@), scan_of_all(children), scan_of_all(rest));
                lemma_follow(
                    done,
                    own_scan(tile@),
                    followed_by(scan_of_all(children), scan_of_all(rest)),
                );
            }
        }
        proof {
            assert(pending(stack@) =~= Seq::<TileModel>::empty());
            lemma_follow(scan@, empty_scan(), empty_scan());
        }
        scan
    }
}

/// The tile that is reached from `root` by following child positions, if any.
pub open spec fn tile_at(root: TileModel, path: Seq<int>) -> Option<TileModel>
    decreases path.len(),
{
    if path.len() == 0 {
        Some(root)
    } else if 0 <= path[0] < root.children.len() {
        tile_at(root.children[path[0]], path.skip(1))
    } else {
        None
    }
}

/// Everything that one part of a document references is among what the whole
/// references.
pub open spec fn includes(whole: ScanModel, part: ScanModel) -> bool {
    &&& forall|r: ReferenceModel|
        part.references.contains(r) ==> #[trigger] whole.references.contains(r)
    &&& forall|s: ImplicitSourceModel|
        part.implicits.contains(s) ==> #[trigger] whole.implicits.contains(s)
}

proof fn lemma_followed_includes(a: ScanModel, b: ScanModel)
    ensures
        includes(followed_by(a, b), a),
        includes(followed_by(a, b), b),
{
    let whole = followed_by(a, b);
    assert forall|r: ReferenceModel|
        a.references.contains(r) || b.references.contains(r) implies #[trigger]
        whole.references.contains(r) by {
        if a.references.contains(r) {
            let i = choose|i: int| 0 <= i < a.references.len() && a.references[i] == r;
            assert(whole.references[i] == r);
        } else {
            let i = choose|i: int| 0 <= i < b.references.len() && b.references[i] == r;
            assert(whole.references[a.references.len() + i] == r);
        }
    }
    assert forall|s: ImplicitSourceModel|
        a.implicits.contains(s) || b.implicits.contains(s) implies #[trigger]
        whole.implicits.contains(s) by {
        if a.implicits.contains(s) {
            let i = choose|i: int| 0 <= i < a.implicits.len() && a.implicits[i] == s;
            assert(whole.implicits[i] == s);
        } else {
            let i = choose|i: int| 0 <= i < b.implicits.len() && b.implicits[i] == s;
            assert(whole.implicits[a.implicits.len() + i] == s);
        }
    }
}

proof fn lemma_all_includes(tiles: Seq<TileModel>, i: int)
    requires
        0 <= i < tiles.len(),
    ensures
        includes(scan_of_all(tiles), scan_of(tiles[i])),
    decreases tiles.len(),
{
    lemma_followed_includes(scan_of(tiles[0]), scan_of_all(tiles.skip(1)));
    if i > 0 {
        lemma_all_includes(tiles.skip(1), i - 1);
    }
}

/// No tile is missed: whatever a tile anywhere in the tree references by itself,
/// the scan of the tree holds.
pub proof fn law_scan_is_complete(root: TileModel, path: Seq<int>)
    ensures
        tile_at(root, path) matches Some(tile) ==> includes(scan_of(root), own_scan(tile)),
    decreases path.len(),
{
    lemma_followed_includes(own_scan(root), scan_of_all(root.children));
    if path.len() > 0 && 0 <= path[0] < root.children.len() {
        law_scan_is_complete(root.children[path[0]], path.skip(1));
        lemma_all_includes(root.children, path[0]);
    }
}

/// Every URI that a tile without implicit tiling names is collected, and classified
/// by its path.
pub proof fn law_every_uri_is_collected(root: TileModel, path: Seq<int>, uri: Seq<char>)
    ensures
        tile_at(root, path) matches Some(tile) ==> implicit_of(tile) is None && uris_of(
            tile,
        ).contains(uri) ==> scan_of(root).references.contains(
            ReferenceModel { uri, kind: kind_of(uri) },
        ),
{
    law_scan_is_complete(root, path);
    if let Some(tile) = tile_at(root, path) {
        if implicit_of(tile) is None && uris_of(tile).contains(uri) {
            let i = choose|i: int| 0 <= i < uris_of(tile).len() && uris_of(tile)[i] == uri;
            let reference = ReferenceModel { uri, kind: kind_of(uri) };
            assert(own_scan(tile).references[i] == reference);
            assert(own_scan(tile).references.contains(reference));
        }
    }
}

/// The kind of a URI is told by the last five characters of its path, and by nothing
/// else: whatever comes before them and whatever query or fragment follows, a path that
/// ends in `.json`, in small letters or capitals, names a tileset document, and any other
/// names content.
pub proof fn law_kind_is_told_by_the_ending(path: Seq<char>, rest: Seq<char>)
    requires
        !path.contains('?'),
        !path.contains('#'),
        rest.len() == 0 || rest[0] == '?' || rest[0] == '#',
    ensures
        kind_of(path + rest) == ReferenceKind::Tileset <==> {
            &&& path.len() >= 5
            &&& path[path.len() - 5] == '.'
            &&& path[path.len() - 4] == 'j' || path[path.len() - 4] == 'J'
            &&& path[path.len() - 3] == 's' || path[path.len() - 3] == 'S'
            &&& path[path.len() - 2] == 'o' || path[path.len() - 2] == 'O'
            &&& path[path.len() - 1] == 'n' || path[path.len() - 1] == 'N'
        },
        kind_of(path + rest) == kind_of(path),
{
    text::law_head_is_all_before(path, rest, '?', '#');
    text::law_head_is_all_before(path, Seq::empty(), '?', '#');
    assert(path + Seq::<char>::empty() =~= path);
    text::law_json_ending_in_any_case(path);
}

/// The directory that a URI names something in does not change what it names.
pub proof fn law_directories_keep_the_kind(directory: Seq<char>, uri: Seq<char>)
    requires
        !directory.contains('?'),
        !directory.contains('#'),
        directory.len() > 0,
        directory.last() == '/',
    ensures
        kind_of(directory + uri) == kind_of(uri),
{
    let path = text::before_either(uri, '?', '#');
    text::lemma_before_either_splits(uri, '?', '#');
    let rest = uri.skip(path.len() as int);
    assert(uri =~= path + rest);
    let longer = directory + path;
    assert(directory + uri =~= longer + rest);
    assert forall|c: char| longer.contains(c) implies directory.contains(c) || path.contains(c) by {
        let i = choose|i: int| 0 <= i < longer.len() && longer[i] == c;
        if i < directory.len() {
            assert(directory[i] == c);
        } else {
            assert(path[i - directory.len()] == c);
        }
    }
    law_kind_is_told_by_the_ending(path, rest);
    law_kind_is_told_by_the_ending(longer, rest);
    assert(longer[directory.len() - 1] == '/');
    if path.len() >= 5 {
        assert(longer[longer.len() - 5] == path[path.len() - 5]);
        assert(longer[longer.len() - 4] == path[path.len() - 4]);
        assert(longer[longer.len() - 3] == path[path.len() - 3]);
        assert(longer[longer.len() - 2] == path[path.len() - 2]);
        assert(longer[longer.len() - 1] == path[path.len() - 1]);
    }
}

/// The URIs that are there are kept, each once and in order, and the others leave no
/// trace.
pub proof fn law_present_keeps_order(a: Seq<Option<Seq<char>>>, b: Seq<Option<Seq<char>>>)
    ensures
        present(a + b) == present(a) + present(b),
        present(seq![None]) == Seq::<Seq<char>>::empty(),
        forall|uri: Seq<char>| present(seq![Some(uri)]) == #[trigger] seq![uri],
    decreases b.len(),
{
    reveal_with_fuel(present, 2);
    if b.len() == 0 {
        assert(a + b =~= a);
        assert(present(a) + present(b) =~= present(a));
    } else {
        law_present_keeps_order(a, b.drop_last());
        assert((a + b).drop_last() =~= a + b.drop_last());
        assert((a + b).last() == b.last());
        assert(present(a + b) =~= present(a) + present(b));
    }
    let nothing = seq![None::<Seq<char>>];
    assert(nothing.drop_last() =~= Seq::<Option<Seq<char>>>::empty());
    assert forall|uri: Seq<char>| present(seq![Some(uri)]) == #[trigger] seq![uri] by {
        let one = seq![Some(uri)];
        assert(one.drop_last() =~= Seq::<Option<Seq<char>>>::empty());
        assert(present(one) =~= seq![uri]);
    }
}

/// A URI is among those that are there exactly when it is one of them.
pub proof fn law_present_is_exact(uris: Seq<Option<Seq<char>>>, uri: Seq<char>)
    ensures
        present(uris).contains(uri) <==> uris.contains(Some(uri)),
    decreases uris.len(),
{
    if uris.len() > 0 {
        let front = uris.drop_last();
        law_present_is_exact(front, uri);
        assert(uris =~= front.push(uris.last()));
        let before = present(front);
        let all = present(uris);
        if uris.contains(Some(uri)) {
            let i = choose|i: int| 0 <= i < uris.len() && uris[i] == Some(uri);
            if i < front.len() {
                assert(front[i] == Some(uri));
                let j = choose|j: int| 0 <= j < before.len() && before[j] == uri;
                assert(all[j] == uri);
            } else {
                assert(all[all.len() - 1] == uri);
            }
        }
        if all.contains(uri) {
            let j = choose|j: int| 0 <= j < all.len() && all[j] == uri;
            if j < before.len() {
                assert(before[j] == uri);
                let i = choose|i: int| 0 <= i < front.len() && front[i] == Some(uri);
                assert(uris[i] == Some(uri));
            } else {
                assert(uris[uris.len() - 1] == Some(uri));
            }
        }
    }
}

/// A content object of the extension is named by the text under `uri`. The text under
/// `url` counts only where there is no `uri` at all.
pub proof fn law_uri_wins_over_url(content: JsonModel)
    ensures
        json::field(content, "uri"@) matches Some(JsonModel::Text(uri)) ==> extension_uri(content)
            == Some(uri),
        json::field(content, "uri"@) matches Some(value) ==> !(value is Text) ==> extension_uri(
            content,
        ) is None,
        json::field(content, "uri"@) is None ==> extension_uri(content) == json::string_of(
            json::field(content, "url"@),
        ),
{
}

/// The contents of the extension are the array under `contents` in the extension object
/// `3DTILES_multiple_contents`, and there are none where there is no such array.
pub proof fn law_extension_lists_contents(tile: TileModel)
    ensures
        match tile.extensions {
            Some(entries) => match json::lookup(entries, "3DTILES_multiple_contents"@) {
                Some(extension) => match json::field(extension, "contents"@) {
                    Some(JsonModel::Array(contents)) => extension_contents(tile) == contents,
                    _ => extension_contents(tile).len() == 0,
                },
                None => extension_contents(tile).len() == 0,
            },
            None => extension_contents(tile).len() == 0,
        },
{
}

/// All three ways of naming content are read: a tile names a URI exactly where its
/// content, one of its contents, or one of the contents of the extension does. They come
/// in this order.
pub proof fn law_content_has_three_spellings(tile: TileModel, uri: Seq<char>)
    ensures
        uris_of(tile) == (match tile.content {
            Some(Some(own)) => seq![own],
            _ => Seq::empty(),
        }) + present(tile.contents) + present(
            extension_contents(tile).map_values(|content: JsonModel| extension_uri(content)),
        ),
        uris_of(tile).contains(uri) <==> tile.content == Some(Some(uri)) || tile.contents.contains(
            Some(uri),
        ) || exists|i: int|
            0 <= i < extension_contents(tile).len() && extension_uri(
                #[trigger] extension_contents(tile)[i],
            ) == Some(uri),
{
    let listed = extension_contents(tile);
    let named = listed.map_values(|content: JsonModel| extension_uri(content));
    let own = match tile.content {
        Some(own) => own,
        None => None,
    };
    let first = present(seq![own]);
    law_present_keeps_order(seq![own], Seq::empty());
    law_present_is_exact(tile.contents, uri);
    law_present_is_exact(named, uri);
    let all = uris_of(tile);
    assert(first == match tile.content {
        Some(Some(own)) => seq![own],
        _ => Seq::<Seq<char>>::empty(),
    }) by {
        if own is Some {
            assert(seq![own->0] == present(seq![Some(own->0)]));
        }
    }
    let head = first + present(tile.contents);
    if all.contains(uri) {
        let j = choose|j: int| 0 <= j < all.len() && all[j] == uri;
        if j < first.len() {
            assert(first[j] == uri);
        } else if j < head.len() {
            assert(present(tile.contents)[j - first.len()] == uri);
        } else {
            assert(present(named)[j - head.len()] == uri);
            let i = choose|i: int| 0 <= i < named.len() && named[i] == Some(uri);
            assert(extension_uri(listed[i]) == Some(uri));
        }
    }
    if tile.content == Some(Some(uri)) {
        assert(all[0] == uri);
    }
    if tile.contents.contains(Some(uri)) {
        let j = choose|j: int|
            0 <= j < present(tile.contents).len() && present(tile.contents)[j] == uri;
        assert(all[first.len() + j] == uri);
    }
    if exists|i: int| 0 <= i < listed.len() && extension_uri(#[trigger] listed[i]) == Some(uri) {
        let i = choose|i: int|
            0 <= i < listed.len() && extension_uri(#[trigger] listed[i]) == Some(uri);
        assert(named[i] == Some(uri));
        assert(named.contains(Some(uri)));
        let j = choose|j: int| 0 <= j < present(named).len() && present(named)[j] == uri;
        assert(all[head.len() + j] == uri);
    }
}

/// A tile is implicit exactly where the extension or the core property says so. The
/// extension wins, and the URIs of the tile become the templates.
pub proof fn law_extension_wins_over_core(tile: TileModel)
    ensures
        ({
            let extension = match tile.extensions {
                Some(entries) => json::lookup(entries, "3DTILES_implicit_tiling"@),
                None => None,
            };
            &&& implicit_of(tile) is None <==> extension is None && tile.implicit_tiling is None
            &&& implicit_of(tile) matches Some(source) ==> {
                &&& source.content_templates == uris_of(tile)
                &&& extension is Some ==> source.raw == extension->0
                &&& extension is None ==> Some(source.raw) == tile.implicit_tiling
            }
        }),
{
}

/// A tile by itself either declares an implicit tileset and references nothing, or
/// declares none and references its URIs one by one, each under its kind.
pub proof fn law_tile_references_or_declares(tile: TileModel)
    ensures
        ({
            let own = own_scan(tile);
            match implicit_of(tile) {
                Some(source) => own.references.len() == 0 && own.implicits == seq![source],
                None => {
                    &&& own.implicits.len() == 0
                    &&& own.references.len() == uris_of(tile).len()
                    &&& forall|i: int|
                        0 <= i < own.references.len() ==> (#[trigger] own.references[i]).uri
                            == uris_of(tile)[i] && own.references[i].kind == kind_of(
                            uris_of(tile)[i],
                        )
                },
            }
        }),
{
}

proof fn lemma_scan_flattens(tiles: Seq<TileModel>)
    ensures
        scan_of_all(tiles).references == tiles.map_values(
            |t: TileModel| scan_of(t).references,
        ).flatten(),
        scan_of_all(tiles).implicits == tiles.map_values(
            |t: TileModel| scan_of(t).implicits,
        ).flatten(),
    decreases tiles.len(),
{
    let references = tiles.map_values(|t: TileModel| scan_of(t).references);
    let implicits = tiles.map_values(|t: TileModel| scan_of(t).implicits);
    if tiles.len() > 0 {
        let rest = tiles.skip(1);
        lemma_scan_flattens(rest);
        assert(references.drop_first() =~= rest.map_values(
            |t: TileModel| scan_of(t).references,
        ));
        assert(implicits.drop_first() =~= rest.map_values(|t: TileModel| scan_of(t).implicits));
    }
}

/// The walk keeps document order: a tile's own findings come first, then those of each
/// child in turn. Nothing is dropped, repeated or moved.
pub proof fn law_scan_keeps_document_order(tile: TileModel)
    ensures
        scan_of(tile).references == own_scan(tile).references + tile.children.map_values(
            |t: TileModel| scan_of(t).references,
        ).flatten(),
        scan_of(tile).implicits == own_scan(tile).implicits + tile.children.map_values(
            |t: TileModel| scan_of(t).implicits,
        ).flatten(),
        document_scan(Some(tile)) == scan_of(tile),
        document_scan(None).references.len() == 0,
        document_scan(None).implicits.len() == 0,
{
    lemma_scan_flattens(tile.children);
}

/// A tile is read in full: its content, its contents and its children count in their order,
/// and so do its extensions.
pub proof fn law_tiles_are_read_in_full(tile: Tile, i: int)
    ensures
        tile.content is None <==> tile@.content is None,
        tile.content matches Some(content) ==> (match content.uri {
            Some(uri) => tile@.content == Some(Some(uri@)),
            None => tile@.content == Some(None::<Seq<char>>),
        }),
        tile@.contents.len() == tile.contents@.len(),
        0 <= i < tile.contents@.len() ==> (match tile.contents@[i].uri {
            Some(uri) => tile@.contents[i] == Some(uri@),
            None => tile@.contents[i] is None,
        }),
        tile@.children.len() == tile.children@.len(),
        0 <= i < tile.children@.len() ==> tile@.children[i] == tile.children@[i]@,
        tile.implicit_tiling is None <==> tile@.implicit_tiling is None,
        tile.implicit_tiling matches Some(raw) ==> tile@.implicit_tiling == Some(raw@),
        tile.extensions is None <==> tile@.extensions is None,
        tile.extensions matches Some(entries) ==> tile@.extensions->0 == entries@.map_values(
            |entry: (String, Json)| (entry.0@, entry.1@),
        ),
{
}

/// Extensions are found by name, whatever the name: a tile has one exactly where its
/// extensions hold an entry of that name.
pub proof fn law_extensions_are_found_by_name(tile: TileModel, name: Seq<char>)
    ensures
        tile.extensions is None ==> extension_of(tile, name) is None,
        tile.extensions matches Some(entries) ==> {
            &&& extension_of(tile, name) is None <==> (forall|i: int|
                0 <= i < entries.len() ==> (#[trigger] entries[i]).0 != name)
            &&& extension_of(tile, name) matches Some(value) ==> exists|i: int|
                {
                    &&& 0 <= i < entries.len()
                    &&& #[trigger] entries[i] == (name, value)
                    &&& forall|j: int| 0 <= j < i ==> (#[trigger] entries[j]).0 != name
                }
        },
{
    if let Some(entries) = tile.extensions {
        json::law_lookup_finds_the_first(entries, name);
    }
}

} // verus!
