//! Implicit tiling: `3DTILES_implicit_tiling` (3D Tiles 1.0 extension) and
//! `tile.implicitTiling` (3D Tiles 1.1).
//!
//! An implicitly tiled subtree does not list its tiles. It ships a *piece of
//! tree* as a bitstream: which tiles exist, which of those have content, and
//! which child subtrees exist. To mirror the tileset you must decode those
//! bitstreams and walk the subtree graph yourself.
//!
//! Everything in this module follows the normative definitions:
//!
//! * **Tile index**: tiles are ordered by level, then by Morton (Z-order)
//!   index within the level, and the index of a tile is
//!   `(N^level - 1) / (N - 1) + morton(x, y)`, where `N` is 4 for `QUADTREE`
//!   and 8 for `OCTREE`. A subtree's `tileAvailability` holds exactly
//!   `(N^subtreeLevels - 1) / (N - 1)` bits.
//! * **Child subtrees**: `childSubtreeAvailability` holds `N^subtreeLevels`
//!   bits, ordered by the Morton index of the child subtree root one level
//!   below the subtree's bottom row.
//! * **Templates**: `subtrees.uri` is templated with the *subtree root's*
//!   global level/x/y; content URI templates are templated with the *tile's*
//!   global level/x/y.

use vstd::arithmetic::power;
use vstd::arithmetic::power2;
use vstd::prelude::*;

use crate::error;
use crate::error::{Error, ErrorModel, Result};
use crate::json;
use crate::json::{Json, JsonModel};
use crate::morton;
use crate::subtree;
use crate::subtree::{
    Availability, AvailabilityModel, LoadedBuffers, LoadedModel, SubtreeDocument, SubtreeModel,
};
use crate::text;
use crate::tileset;
use crate::tileset::{ImplicitSource, ImplicitSourceModel};
use crate::web_url;
use crate::web_url::{Url, UrlParts};

pub use crate::morton::{decode_2d, decode_3d, morton_2d, morton_3d};
pub use crate::tileset::MULTIPLE_CONTENTS_EXTENSION;

verus! {

/// Levels beyond this cannot be addressed by a 32-bit Morton index.
pub const MAX_LEVELS: u64 = 31;

/// Which way a subtree subdivides.
#[derive(Debug, Clone, Copy, PartialEq, Eq, Structural)]
pub enum SubdivisionScheme {
    /// Each tile has 4 children; Morton indices are 2D.
    Quadtree,
    /// Each tile has 8 children; Morton indices are 3D.
    Octree,
}

/// The scheme that the 3D Tiles schema writes as `value`.
pub open spec fn scheme_named(value: Seq<char>) -> Option<SubdivisionScheme> {
    if value == "QUADTREE"@ {
        Some(SubdivisionScheme::Quadtree)
    } else if value == "OCTREE"@ {
        Some(SubdivisionScheme::Octree)
    } else {
        None
    }
}

/// How many children a tile has.
pub open spec fn branching(scheme: SubdivisionScheme) -> nat {
    match scheme {
        SubdivisionScheme::Quadtree => 4,
        SubdivisionScheme::Octree => 8,
    }
}

/// The largest `subtreeLevels` that still fits a 32-bit Morton index.
pub open spec fn most_subtree_levels(scheme: SubdivisionScheme) -> u32 {
    match scheme {
        SubdivisionScheme::Quadtree => 15,
        SubdivisionScheme::Octree => 9,
    }
}

impl SubdivisionScheme {
    /// Parses the string form of the 3D Tiles schema.
    pub fn parse(value: &str) -> (scheme: Option<SubdivisionScheme>)
        ensures
            scheme == scheme_named(value@),
    {
        proof {
            reveal_strlit("QUADTREE");
            reveal_strlit("OCTREE");
        }
        if text::same_text(value, "QUADTREE") {
            Some(SubdivisionScheme::Quadtree)
        } else if text::same_text(value, "OCTREE") {
            Some(SubdivisionScheme::Octree)
        } else {
            None
        }
    }

    /// 4 for a quadtree, 8 for an octree.
    pub fn branching_factor(self) -> (factor: u64)
        ensures
            factor == branching(self),
    {
        match self {
            SubdivisionScheme::Quadtree => 4,
            SubdivisionScheme::Octree => 8,
        }
    }

    /// The largest `subtreeLevels` that still fits a 32-bit Morton index.
    ///
    /// CesiumJS documents 15 for quadtrees and 9 for octrees, leaving a level
    /// of headroom for child subtree coordinates.
    pub fn max_subtree_levels(self) -> (levels: u32)
        ensures
            levels == most_subtree_levels(self),
    {
        match self {
            SubdivisionScheme::Quadtree => 15,
            SubdivisionScheme::Octree => 9,
        }
    }
}

/// A tile (or a subtree root) in the implicit tileset's global coordinates.
///
/// Level 0 is the tile that carried the implicit tiling extension; coordinates
/// are counted from there, not from the containing subtree.
#[derive(Debug, Clone, Copy, PartialEq, Eq, Structural)]
pub struct Coordinates {
    /// Level relative to the implicit tileset root, 0-indexed.
    pub level: u64,
    /// X index within the level.
    pub x: u64,
    /// Y index within the level.
    pub y: u64,
    /// Z index within the level. Always 0 for quadtrees.
    pub z: u64,
}

/// The Morton index of coordinates within their level, made from the low 32 bits of
/// each.
pub open spec fn morton_index(c: Coordinates, scheme: SubdivisionScheme) -> u32 {
    match scheme {
        SubdivisionScheme::Quadtree => morton::index_2d(c.x as u32, c.y as u32),
        SubdivisionScheme::Octree => morton::index_3d(c.x as u32, c.y as u32, c.z as u32),
    }
}

impl Coordinates {
    /// The root tile of an implicit tileset.
    pub fn root() -> (root: Coordinates)
        ensures
            root == (Coordinates { level: 0, x: 0, y: 0, z: 0 }),
    {
        Coordinates { level: 0, x: 0, y: 0, z: 0 }
    }

    /// The Morton (Z-order) index of these coordinates within their level.
    pub fn morton(self, scheme: SubdivisionScheme) -> (index: u32)
        ensures
            index == morton_index(self, scheme),
    {
        match scheme {
            SubdivisionScheme::Quadtree => morton::morton_2d(self.x as u32, self.y as u32),
            SubdivisionScheme::Octree => morton::morton_3d(
                self.x as u32,
                self.y as u32,
                self.z as u32,
            ),
        }
    }
}

/// Local coordinates at a level, from a Morton index within that level.
pub open spec fn local_coordinates(scheme: SubdivisionScheme, index: u32) -> (u64, u64, u64) {
    match scheme {
        SubdivisionScheme::Quadtree => (
            morton::gather_by_one(index) as u64,
            morton::gather_by_one(index >> 1) as u64,
            0,
        ),
        SubdivisionScheme::Octree => (
            morton::gather_by_two(index) as u64,
            morton::gather_by_two(index >> 1) as u64,
            morton::gather_by_two(index >> 2) as u64,
        ),
    }
}

/// Local coordinates at a level, from a Morton index within that level.
pub fn decode_local(scheme: SubdivisionScheme, morton: u32) -> (local: (u64, u64, u64))
    ensures
        local == local_coordinates(scheme, morton),
{
    match scheme {
        SubdivisionScheme::Quadtree => {
            let (x, y) = morton::decode_2d(morton);
            (x as u64, y as u64, 0)
        },
        SubdivisionScheme::Octree => {
            let (x, y, z) = morton::decode_3d(morton);
            (x as u64, y as u64, z as u64)
        },
    }
}

/// How many tiles a level of a subtree has: `N^level`.
pub open spec fn level_size(scheme: SubdivisionScheme, level: nat) -> int {
    power::pow(branching(scheme) as int, level)
}

/// How many tiles the levels above `level` have: `(N^level - 1) / (N - 1)`.
pub open spec fn tiles_above(branching: int, level: nat) -> int {
    (power::pow(branching, level) - 1) / (branching - 1)
}

fn raise(base: u64, exponent: u64) -> (out: u64)
    requires
        base > 0,
        power::pow(base as int, exponent as nat) <= u64::MAX,
    ensures
        out == power::pow(base as int, exponent as nat),
{
    let mut out: u64 = 1;
    let mut i: u64 = 0;
    proof {
        power::lemma_pow0(base as int);
    }
    while i < exponent
        invariant
            i <= exponent,
            base > 0,
            out == power::pow(base as int, i as nat),
            power::pow(base as int, exponent as nat) <= u64::MAX,
        decreases exponent - i,
    {
        proof {
            power::lemma_pow_increases(base as nat, (i + 1) as nat, exponent as nat);
            power::lemma_pow_adds(base as int, 1, i as nat);
            power::lemma_pow1(base as int);
            assert(out * base == base * out) by (nonlinear_arith);
        }
        out = out * base;
        i += 1;
    }
    out
}

/// First bit index at a level: `(N^level - 1) / (N - 1)`.
pub fn level_offset(branching: u64, level: u64) -> (offset: u64)
    requires
        branching > 1,
        power::pow(branching as int, level as nat) <= u64::MAX,
    ensures
        offset == tiles_above(branching as int, level as nat),
{
    proof {
        power::lemma_pow_positive(branching as int, level as nat);
    }
    (raise(branching, level) - 1) / (branching - 1)
}

/// The size of a level is a power of two.
proof fn lemma_level_size(scheme: SubdivisionScheme, level: nat)
    ensures
        level_size(scheme, level) == power2::pow2(
            (match scheme {
                SubdivisionScheme::Quadtree => 2nat,
                SubdivisionScheme::Octree => 3nat,
            }) * level,
        ),
        level_size(scheme, level) >= 1,
        level <= most_subtree_levels(scheme) ==> level_size(scheme, level) <= 0x4000_0000,
{
    let bits: nat = match scheme {
        SubdivisionScheme::Quadtree => 2,
        SubdivisionScheme::Octree => 3,
    };
    power2::lemma2_to64();
    power2::lemma_pow2(bits);
    power::lemma_pow_multiplies(2, bits, level);
    power2::lemma_pow2(bits * level);
    power2::lemma_pow2_pos(bits * level);
    assert(branching(scheme) == power::pow(2, bits));
    if level <= most_subtree_levels(scheme) {
        assert(bits * level <= 30) by (nonlinear_arith)
            requires
                bits == 2 && level <= 15 || bits == 3 && level <= 9,
        ;
        if bits * level < 30 {
            power2::lemma_pow2_strictly_increases(bits * level, 30);
        }
    }
}

/// The levels above a level of a subtree have at most a third as many tiles.
proof fn lemma_tiles_above(scheme: SubdivisionScheme, level: nat)
    requires
        level <= most_subtree_levels(scheme),
    ensures
        0 <= tiles_above(branching(scheme) as int, level) <= level_size(scheme, level),
{
    lemma_level_size(scheme, level);
    let size = level_size(scheme, level);
    let n = branching(scheme) as int;
    assert(0 <= (size - 1) / (n - 1) <= size) by (nonlinear_arith)
        requires
            n == 4 || n == 8,
            size >= 1,
    ;
}

/// The tile indices of a level follow those of the level above: the first index of
/// a level is that of the level above plus the size of that level.
pub proof fn law_levels_are_consecutive(scheme: SubdivisionScheme, level: nat)
    ensures
        tiles_above(branching(scheme) as int, level + 1) == tiles_above(
            branching(scheme) as int,
            level,
        ) + level_size(scheme, level),
        tiles_above(branching(scheme) as int, 0) == 0,
{
    let n = branching(scheme) as int;
    let size = power::pow(n, level);
    power::lemma_pow0(n);
    power::lemma_pow1(n);
    power::lemma_pow_adds(n, 1, level);
    assert(power::pow(n, level + 1) == n * size);
    assert((n * size - 1) / (n - 1) == (size - 1) / (n - 1) + size) by (nonlinear_arith)
        requires
            n == 4 || n == 8,
    ;
}

/// A template with its variables filled in.
pub open spec fn substituted(template: Seq<char>, c: Coordinates) -> Seq<char> {
    let level = text::replace(template, "{level}"@, text::decimal(c.level as nat));
    let x = text::replace(level, "{x}"@, text::decimal(c.x as nat));
    let y = text::replace(x, "{y}"@, text::decimal(c.y as nat));
    text::replace(y, "{z}"@, text::decimal(c.z as nat))
}

/// Fills a template URI's `{level}`/`{x}`/`{y}`/`{z}` variables.
pub fn substitute(template: &str, coordinates: Coordinates) -> (out: String)
    ensures
        out@ == substituted(template@, coordinates),
{
    let level = text::decimal_text(coordinates.level);
    let filled = text::replace_text(template, "{level}", level.as_str());
    let x = text::decimal_text(coordinates.x);
    let filled = text::replace_text(filled.as_str(), "{x}", x.as_str());
    let y = text::decimal_text(coordinates.y);
    let filled = text::replace_text(filled.as_str(), "{y}", y.as_str());
    let z = text::decimal_text(coordinates.z);
    text::replace_text(filled.as_str(), "{z}", z.as_str())
}

/// The `content.uri` template for one content index: its own, or the only one there
/// is. Some producers emit one template and a multi-element availability array.
pub open spec fn template_for(templates: Seq<Seq<char>>, index: int) -> Option<Seq<char>> {
    if 0 <= index < templates.len() {
        Some(templates[index])
    } else if templates.len() == 1 {
        Some(templates[0])
    } else {
        None
    }
}

/// The `content.uri` template for one content index.
pub fn content_template<'a>(templates: &Vec<&'a str>, index: usize) -> (out: Option<&'a str>)
    ensures
        web_url::optional_str(out) == template_for(tileset::str_texts(templates@), index as int),
{
    if index < templates.len() {
        assert(tileset::str_texts(templates@)[index as int] == templates@[index as int]@);
        Some(templates[index])
    } else if templates.len() == 1 {
        // Prefer the template we have over dropping the tile.
        assert(tileset::str_texts(templates@)[0] == templates@[0]@);
        Some(templates[0])
    } else {
        None
    }
}

/// One implicit tileset: the extension object plus the document it came from.
#[derive(Debug)]
pub struct ImplicitTiling {
    /// URL of the document that declared the extension. Content and subtree URIs
    /// are relative to it, never to the subtree that names them.
    base: Url,
    /// Quadtree or octree.
    subdivision: SubdivisionScheme,
    /// Distinct levels covered by each subtree.
    subtree_levels: u32,
    /// How many levels of the tree hold tiles (`maximumLevel + 1`).
    available_levels: u64,
    /// Template for subtree files.
    subtree_uri_template: String,
    /// Templates for content files, one per content of the implicit tile.
    content_templates: Vec<String>,
}

/// What an [`ImplicitTiling`] stands for.
#[verifier::ext_equal]
pub struct TilingModel {
    pub base: UrlParts,
    pub subdivision: SubdivisionScheme,
    pub subtree_levels: u32,
    pub available_levels: u64,
    pub subtree_uri_template: Seq<char>,
    pub content_templates: Seq<Seq<char>>,
}

impl View for ImplicitTiling {
    type V = TilingModel;

    closed spec fn view(&self) -> TilingModel {
        TilingModel {
            base: self.base@,
            subdivision: self.subdivision,
            subtree_levels: self.subtree_levels,
            available_levels: self.available_levels,
            subtree_uri_template: self.subtree_uri_template@,
            content_templates: text::texts(self.content_templates@),
        }
    }
}

/// The levels of an implicit tileset are in range.
pub open spec fn levels_in_range(tiling: TilingModel) -> bool {
    &&& 1 <= tiling.subtree_levels <= most_subtree_levels(tiling.subdivision)
    &&& 1 <= tiling.available_levels <= MAX_LEVELS
}

/// A defect of an implicit tiling declaration.
pub open spec fn declaration_defect(url: UrlParts, detail: Seq<char>) -> ErrorModel {
    ErrorModel::Implicit { url: url.text, detail }
}

/// The subdivision scheme that a declaration names; empty where it names none.
pub open spec fn declared_scheme(raw: JsonModel) -> Seq<char> {
    match json::string_of(json::field(raw, "subdivisionScheme"@)) {
        Some(name) => name,
        None => Seq::empty(),
    }
}

/// How many levels hold tiles. 3D Tiles 1.1 renamed `maximumLevel` to
/// `availableLevels`, and made it the count of levels rather than the highest level
/// index.
pub open spec fn declared_levels(raw: JsonModel) -> Option<u64> {
    match json::number_of(json::field(raw, "availableLevels"@)) {
        Some(levels) => Some(levels),
        None => match json::number_of(json::field(raw, "maximumLevel"@)) {
            Some(maximum) => Some(
                if maximum == u64::MAX {
                    0u64
                } else {
                    (maximum + 1) as u64
                },
            ),
            None => None,
        },
    }
}

/// The template of the subtree files, `subtrees.uri`.
pub open spec fn declared_template(raw: JsonModel) -> Option<Seq<char>> {
    match json::field(raw, "subtrees"@) {
        Some(subtrees) => json::string_of(json::field(subtrees, "uri"@)),
        None => None,
    }
}

/// The implicit tileset that a declaration describes, or what is wrong with it.
pub open spec fn declared_tiling(
    url: UrlParts,
    source: ImplicitSourceModel,
) -> core::result::Result<TilingModel, ErrorModel> {
    let raw = source.raw;
    match scheme_named(declared_scheme(raw)) {
        None => Err(
            ErrorModel::UnsupportedSubdivision { url: url.text, scheme: declared_scheme(raw) },
        ),
        Some(subdivision) => match json::number_of(json::field(raw, "subtreeLevels"@)) {
            None => Err(declaration_defect(url, "`subtreeLevels` is missing"@)),
            Some(subtree_levels) => {
                let most = most_subtree_levels(subdivision);
                if subtree_levels == 0 || subtree_levels > most {
                    Err(
                        declaration_defect(
                            url,
                            "`subtreeLevels` is "@ + text::decimal(subtree_levels as nat)
                                + ", outside the supported range 1..="@ + text::decimal(
                                most as nat,
                            ),
                        ),
                    )
                } else {
                    match declared_levels(raw) {
                        None => Err(
                            declaration_defect(
                                url,
                                "neither `availableLevels` nor `maximumLevel` is present"@,
                            ),
                        ),
                        Some(available_levels) => if available_levels == 0 || available_levels
                            > MAX_LEVELS {
                            Err(
                                declaration_defect(
                                    url,
                                    "`availableLevels` is "@ + text::decimal(
                                        available_levels as nat,
                                    ) + ", expected 1..=31"@,
                                ),
                            )
                        } else {
                            match declared_template(raw) {
                                None => Err(
                                    declaration_defect(url, "`subtrees.uri` is missing"@),
                                ),
                                Some(template) => Ok(
                                    TilingModel {
                                        base: url,
                                        subdivision,
                                        subtree_levels: subtree_levels as u32,
                                        available_levels,
                                        subtree_uri_template: template,
                                        content_templates: source.content_templates,
                                    },
                                ),
                            }
                        },
                    }
                }
            },
        },
    }
}

fn undeclarable(url: &Url, detail: &str) -> (error: Error)
    ensures
        error@ == declaration_defect(url@, detail@),
{
    Error::Implicit { url: url.as_str().to_owned(), detail: detail.to_owned() }
}

fn text_field<'a>(raw: &'a Json, key: &str) -> (out: Option<&'a str>)
    ensures
        web_url::optional_str(out) == json::string_of(json::field(raw@, key@)),
{
    match raw.get(key) {
        Some(value) => value.as_str(),
        None => None,
    }
}

fn number_field(raw: &Json, key: &str) -> (out: Option<u64>)
    ensures
        out == json::number_of(json::field(raw@, key@)),
{
    match raw.get(key) {
        Some(value) => value.as_u64(),
        None => None,
    }
}

impl ImplicitTiling {
    /// The levels are in range.
    #[verifier::type_invariant]
    pub open spec fn in_range(self) -> bool {
        levels_in_range(self@)
    }

    /// Parses the implicit tiling extension of one tile.
    pub fn parse(tileset_url: &Url, source: &ImplicitSource) -> (tiling: Result<ImplicitTiling>)
        ensures
            error::outcome(tiling) == declared_tiling(tileset_url@, source@),
    {
        let raw = &source.raw;
        proof {
            reveal_strlit("");
            assert(""@ =~= Seq::<char>::empty());
        }
        let scheme_name = match text_field(raw, "subdivisionScheme") {
            Some(name) => name,
            None => "",
        };
        let subdivision = match SubdivisionScheme::parse(scheme_name) {
            Some(scheme) => scheme,
            None => {
                return Err(
                    Error::UnsupportedSubdivision {
                        url: tileset_url.as_str().to_owned(),
                        scheme: scheme_name.to_owned(),
                    },
                );
            },
        };
        let subtree_levels = match number_field(raw, "subtreeLevels") {
            Some(levels) => levels,
            None => {
                return Err(undeclarable(tileset_url, "`subtreeLevels` is missing"));
            },
        };
        let most = subdivision.max_subtree_levels() as u64;
        if subtree_levels == 0 || subtree_levels > most {
            let mut detail = "`subtreeLevels` is ".to_owned();
            detail.append(text::decimal_text(subtree_levels).as_str());
            detail.append(", outside the supported range 1..=");
            detail.append(text::decimal_text(most).as_str());
            return Err(undeclarable(tileset_url, detail.as_str()));
        }
        let available_levels: u64 = match number_field(raw, "availableLevels") {
            Some(levels) => levels,
            None => match number_field(raw, "maximumLevel") {
                // One past the highest number there is counts as none.
                Some(maximum) => maximum.wrapping_add(1),
                None => {
                    return Err(
                        undeclarable(
                            tileset_url,
                            "neither `availableLevels` nor `maximumLevel` is present",
                        ),
                    );
                },
            },
        };
        if available_levels == 0 || available_levels > MAX_LEVELS {
            let mut detail = "`availableLevels` is ".to_owned();
            detail.append(text::decimal_text(available_levels).as_str());
            detail.append(", expected 1..=31");
            return Err(undeclarable(tileset_url, detail.as_str()));
        }
        let template = match raw.get("subtrees") {
            Some(subtrees) => text_field(subtrees, "uri"),
            None => None,
        };
        let subtree_uri_template = match template {
            Some(uri) => uri.to_owned(),
            None => {
                return Err(undeclarable(tileset_url, "`subtrees.uri` is missing"));
            },
        };
        let content_templates = text::duplicate_texts(&source.content_templates);
        Ok(
            ImplicitTiling {
                base: tileset_url.duplicate(),
                subdivision,
                subtree_levels: subtree_levels as u32,
                available_levels,
                subtree_uri_template,
                content_templates,
            },
        )
    }

    /// The root tile of this implicit tileset.
    pub fn root(&self) -> (root: Coordinates)
        ensures
            root == (Coordinates { level: 0, x: 0, y: 0, z: 0 }),
    {
        Coordinates::root()
    }

    /// How many levels of the tree hold tiles.
    pub fn available_levels(&self) -> (levels: u64)
        ensures
            levels == self@.available_levels,
    {
        self.available_levels
    }

    /// Number of bits in a subtree's `tileAvailability`.
    pub fn tile_bit_count(&self) -> (bits: u64)
        ensures
            bits == tiles_above(
                branching(self@.subdivision) as int,
                self@.subtree_levels as nat,
            ),
    {
        proof {
            use_type_invariant(self);
            lemma_level_size(self.subdivision, self.subtree_levels as nat);
        }
        level_offset(self.subdivision.branching_factor(), self.subtree_levels as u64)
    }

    /// Resolves the subtree file for a subtree root's coordinates.
    pub fn subtree_url(&self, coordinates: Coordinates) -> (url: Result<Url>)
        ensures
            error::outcome(url) == web_url::join_outcome(
                self@.base,
                substituted(self@.subtree_uri_template, coordinates),
            ),
    {
        let reference = substitute(self.subtree_uri_template.as_str(), coordinates);
        self.base.join(reference.as_str())
    }

    /// Resolves one content template for a specific tile.
    pub fn content_url(&self, coordinates: Coordinates, template: &str) -> (url: Result<Url>)
        ensures
            error::outcome(url) == web_url::join_outcome(
                self@.base,
                substituted(template@, coordinates),
            ),
    {
        let reference = substitute(template, coordinates);
        self.base.join(reference.as_str())
    }
}

/// The tile of a subtree at a level (counted from the subtree's root) and a Morton
/// index within that level, in global coordinates.
pub open spec fn tile_in(
    scheme: SubdivisionScheme,
    root: Coordinates,
    level: u32,
    index: u32,
) -> Coordinates {
    let local = local_coordinates(scheme, index);
    Coordinates {
        level: (root.level + level) as u64,
        x: ((root.x << level) + local.0) as u64,
        y: ((root.y << level) + local.1) as u64,
        z: ((root.z << level) + local.2) as u64,
    }
}

/// Local coordinates fit into the bits that a shift by the level frees.
proof fn lemma_local_fits(scheme: SubdivisionScheme, root: Coordinates, level: u32, index: u32)
    requires
        level <= most_subtree_levels(scheme),
        index < level_size(scheme, level as nat),
    ensures
        ({
            let local = local_coordinates(scheme, index);
            &&& local.0 < power2::pow2(level as nat)
            &&& local.1 < power2::pow2(level as nat)
            &&& local.2 < power2::pow2(level as nat)
            &&& (root.x << level) + local.0 <= u64::MAX
            &&& (root.y << level) + local.1 <= u64::MAX
            &&& (root.z << level) + local.2 <= u64::MAX
        }),
{
    lemma_level_size(scheme, level as nat);
    power2::lemma2_to64();
    power2::lemma_pow2_pos(level as nat);
    let bits: u32 = match scheme {
        SubdivisionScheme::Quadtree => 2,
        SubdivisionScheme::Octree => 3,
    };
    let shift: u32 = (bits * level) as u32;
    assert(shift <= 30);
    assert(power2::pow2(shift as nat) <= power2::pow2(30)) by {
        if shift < 30 {
            power2::lemma_pow2_strictly_increases(shift as nat, 30);
        }
    }
    vstd::bits::lemma_u32_shl_is_mul(1, shift);
    assert(power2::pow2(level as nat) <= power2::pow2(15)) by {
        if level < 15 {
            power2::lemma_pow2_strictly_increases(level as nat, 15);
        }
    }
    vstd::bits::lemma_u32_shl_is_mul(1, level);
    match scheme {
        SubdivisionScheme::Quadtree => {
            morton::lemma_gathered_below_2d(index, level);
        },
        SubdivisionScheme::Octree => {
            morton::lemma_gathered_below_3d(index, level);
        },
    }
    let local = local_coordinates(scheme, index);
    lemma_shift_frees_bits(root.x, local.0, level);
    lemma_shift_frees_bits(root.y, local.1, level);
    lemma_shift_frees_bits(root.z, local.2, level);
}

proof fn lemma_shift_frees_bits(high: u64, low: u64, shift: u32)
    by (bit_vector)
    requires
        shift <= 15,
        low < 1u32 << shift,
    ensures
        (high << shift) + low <= 0xffff_ffff_ffff_ffffu64,
{
}

/// Coordinates that lie within their level.
pub open spec fn within_level(scheme: SubdivisionScheme, c: Coordinates) -> bool {
    &&& c.x < power2::pow2(c.level as nat)
    &&& c.y < power2::pow2(c.level as nat)
    &&& c.z < power2::pow2(c.level as nat)
    &&& scheme == SubdivisionScheme::Quadtree ==> c.z == 0
}

proof fn lemma_global(high: u64, low: u64, level: u64, shift: u32)
    requires
        level + shift < 64,
        high < power2::pow2(level as nat),
        low < power2::pow2(shift as nat),
    ensures
        (high << shift) == high * power2::pow2(shift as nat),
        (high << shift) + low < power2::pow2((level + shift) as nat),
{
    let scale = power2::pow2(shift as nat) as int;
    power2::lemma_pow2_pos(shift as nat);
    power2::lemma_pow2_adds(level as nat, shift as nat);
    let room = power2::pow2(level as nat) as int;
    assert(high * scale + low < room * scale) by (nonlinear_arith)
        requires
            high + 1 <= room,
            low < scale,
            scale > 0,
    ;
    vstd::bits::lemma_u64_pow2_no_overflow((level + shift) as nat);
    vstd::bits::lemma_u64_shl_is_mul(high, shift as u64);
    assert(high << shift == high << (shift as u64)) by (bit_vector)
        requires
            shift < 64,
    ;
}

/// Templates are filled with global coordinates: below a subtree root within its
/// level, a tile's coordinates are those of the root, scaled by the number of tiles
/// across the subtree's level, plus the tile's place in that level; and they lie
/// within the tile's own level.
pub proof fn law_tiles_are_global(
    scheme: SubdivisionScheme,
    root: Coordinates,
    level: u32,
    index: u32,
)
    requires
        within_level(scheme, root),
        root.level < MAX_LEVELS,
        level <= most_subtree_levels(scheme),
        index < level_size(scheme, level as nat),
    ensures
        ({
            let tile = tile_in(scheme, root, level, index);
            let local = local_coordinates(scheme, index);
            let across = power2::pow2(level as nat);
            &&& tile.level == root.level + level
            &&& tile.x == root.x * across + local.0
            &&& tile.y == root.y * across + local.1
            &&& tile.z == root.z * across + local.2
            &&& within_level(scheme, tile)
        }),
{
    lemma_local_fits(scheme, root, level, index);
    let local = local_coordinates(scheme, index);
    lemma_global(root.x, local.0, root.level, level);
    lemma_global(root.y, local.1, root.level, level);
    lemma_global(root.z, local.2, root.level, level);
    if root.z == 0 {
        assert(0 * power2::pow2(level as nat) == 0) by (nonlinear_arith);
    }
}

/// The reference of one content of a tile, if the tile has that content and a
/// template names it.
pub open spec fn content_reference(
    tile: Coordinates,
    bit: int,
    available: AvailabilityModel,
    template: Option<Seq<char>>,
) -> Option<Seq<char>> {
    match template {
        Some(t) => if subtree::is_available(available, bit) {
            Some(substituted(t, tile))
        } else {
            None
        },
        None => None,
    }
}

/// The references of the contents of a tile.
pub open spec fn tile_references(
    tile: Coordinates,
    bit: int,
    contents: Seq<AvailabilityModel>,
    templates: Seq<Seq<char>>,
) -> Seq<Seq<char>> {
    tileset::present(
        Seq::new(
            contents.len(),
            |k: int| content_reference(tile, bit, contents[k], template_for(templates, k)),
        ),
    )
}

/// What enumerating the tiles of a subtree reads.
#[verifier::ext_equal]
pub struct SubtreeContent {
    /// How the tileset subdivides.
    pub scheme: SubdivisionScheme,
    /// How many levels of the tileset hold tiles.
    pub available_levels: u64,
    /// The subtree's root.
    pub root: Coordinates,
    /// Which tiles exist.
    pub tiles: AvailabilityModel,
    /// Which tiles have content, one entry per content.
    pub contents: Seq<AvailabilityModel>,
    /// The content templates.
    pub templates: Seq<Seq<char>>,
}

/// The index of a tile within its subtree.
pub open spec fn tile_index(scheme: SubdivisionScheme, level: nat, morton: int) -> int {
    tiles_above(branching(scheme) as int, level) + morton
}

/// The references of the tiles of one level with a Morton index below `n`, in
/// Morton order.
pub open spec fn level_references(s: SubtreeContent, level: u32, n: nat) -> Seq<Seq<char>>
    decreases n,
{
    if n == 0 {
        Seq::empty()
    } else {
        let morton = (n - 1) as u32;
        let bit = tile_index(s.scheme, level as nat, n - 1);
        level_references(s, level, (n - 1) as nat) + (if subtree::is_available(s.tiles, bit) {
            tile_references(tile_in(s.scheme, s.root, level, morton), bit, s.contents, s.templates)
        } else {
            Seq::empty()
        })
    }
}

/// How many tiles of one level with a Morton index below `n` exist.
pub open spec fn level_tiles(s: SubtreeContent, level: u32, n: nat) -> nat
    decreases n,
{
    if n == 0 {
        0
    } else {
        level_tiles(s, level, (n - 1) as nat) + (if subtree::is_available(
            s.tiles,
            tile_index(s.scheme, level as nat, n - 1),
        ) {
            1nat
        } else {
            0
        })
    }
}

/// Whether a level of a subtree holds tiles at all.
pub open spec fn level_exists(s: SubtreeContent, level: int) -> bool {
    s.root.level + level < s.available_levels
}

/// The references of the tiles of the first `n` levels, level by level.
pub open spec fn subtree_references(s: SubtreeContent, n: nat) -> Seq<Seq<char>>
    decreases n,
{
    if n == 0 {
        Seq::empty()
    } else {
        let level = (n - 1) as u32;
        subtree_references(s, (n - 1) as nat) + (if level_exists(s, n - 1) {
            level_references(s, level, level_size(s.scheme, (n - 1) as nat) as nat)
        } else {
            Seq::empty()
        })
    }
}

/// How many tiles of the first `n` levels exist.
pub open spec fn subtree_tiles(s: SubtreeContent, n: nat) -> nat
    decreases n,
{
    if n == 0 {
        0
    } else {
        let level = (n - 1) as u32;
        subtree_tiles(s, (n - 1) as nat) + (if level_exists(s, n - 1) {
            level_tiles(s, level, level_size(s.scheme, (n - 1) as nat) as nat)
        } else {
            0
        })
    }
}

/// What a list of availabilities stands for.
pub open spec fn availability_views(list: Seq<Availability>) -> Seq<AvailabilityModel> {
    list.map_values(|a: Availability| a@)
}

fn add_tile_references(
    tile: Coordinates,
    bit: u64,
    contents: &Vec<Availability>,
    templates: &Vec<&str>,
    out: &mut Vec<String>,
)
    ensures
        text::texts(final(out)@) == text::texts(old(out)@) + tile_references(
            tile,
            bit as int,
            availability_views(contents@),
            tileset::str_texts(templates@),
        ),
{
    let ghost start = text::texts(out@);
    let ghost models = availability_views(contents@);
    let ghost named = tileset::str_texts(templates@);
    let ghost wanted = Seq::new(
        models.len(),
        |k: int| content_reference(tile, bit as int, models[k], template_for(named, k)),
    );
    let mut k: usize = 0;
    assert(tileset::present(wanted.take(0)) =~= Seq::<Seq<char>>::empty());
    while k < contents.len()
        invariant
            k <= contents.len(),
            models == availability_views(contents@),
            named == tileset::str_texts(templates@),
            wanted == Seq::new(
                models.len(),
                |k: int| content_reference(tile, bit as int, models[k], template_for(named, k)),
            ),
            text::texts(out@) == start + tileset::present(wanted.take(k as int)),
        decreases contents.len() - k,
    {
        let ghost before = text::texts(out@);
        proof {
            tileset::lemma_present_one(wanted, k as int);
            assert(models[k as int] == contents@[k as int]@);
        }
        if contents[k].get(bit) {
            if let Some(template) = content_template(templates, k) {
                let reference = substitute(template, tile);
                let ghost added = reference@;
                out.push(reference);
                assert(text::texts(out@) =~= before.push(added));
            }
        }
        k += 1;
    }
    assert(wanted.take(wanted.len() as int) =~= wanted);
}

/// A level has no more existing tiles than tiles.
proof fn lemma_level_tiles(s: SubtreeContent, level: u32, n: nat)
    ensures
        level_tiles(s, level, n) <= n,
    decreases n,
{
    if n > 0 {
        lemma_level_tiles(s, level, (n - 1) as nat);
    }
}

/// A subtree has no more existing tiles than bits.
proof fn lemma_subtree_tiles(s: SubtreeContent, n: nat)
    ensures
        subtree_tiles(s, n) <= tiles_above(branching(s.scheme) as int, n),
    decreases n,
{
    if n > 0 {
        lemma_subtree_tiles(s, (n - 1) as nat);
        law_levels_are_consecutive(s.scheme, (n - 1) as nat);
        power::lemma_pow_positive(branching(s.scheme) as int, (n - 1) as nat);
        lemma_level_tiles(
            s,
            (n - 1) as u32,
            level_size(s.scheme, (n - 1) as nat) as nat,
        );
    } else {
        law_levels_are_consecutive(s.scheme, 0);
    }
}

/// The references that resolve against `base`, resolved, in order.
pub open spec fn resolved(base: UrlParts, references: Seq<Seq<char>>) -> Seq<UrlParts>
    decreases references.len(),
{
    if references.len() == 0 {
        Seq::empty()
    } else {
        let before = resolved(base, references.drop_last());
        match web_url::join_outcome(base, references.last()) {
            Ok(url) => before.push(url),
            Err(_) => before,
        }
    }
}

/// The references that do not resolve against `base`, in order.
pub open spec fn unresolved(base: UrlParts, references: Seq<Seq<char>>) -> Seq<Seq<char>>
    decreases references.len(),
{
    if references.len() == 0 {
        Seq::empty()
    } else {
        let before = unresolved(base, references.drop_last());
        match web_url::join_outcome(base, references.last()) {
            Ok(_) => before,
            Err(_) => before.push(references.last()),
        }
    }
}

fn resolve_all(base: &Url, references: Vec<String>) -> (out: (Vec<Url>, Vec<String>))
    ensures
        subtree::url_views(out.0@) == resolved(base@, text::texts(references@)),
        text::texts(out.1@) == unresolved(base@, text::texts(references@)),
{
    let ghost named = text::texts(references@);
    let mut urls: Vec<Url> = Vec::new();
    let mut skipped: Vec<String> = Vec::new();
    let mut i: usize = 0;
    assert(subtree::url_views(urls@) =~= resolved(base@, named.take(0)));
    assert(text::texts(skipped@) =~= unresolved(base@, named.take(0)));
    while i < references.len()
        invariant
            i <= references.len(),
            named == text::texts(references@),
            subtree::url_views(urls@) == resolved(base@, named.take(i as int)),
            text::texts(skipped@) == unresolved(base@, named.take(i as int)),
        decreases references.len() - i,
    {
        let ghost urls_before = subtree::url_views(urls@);
        let ghost skipped_before = text::texts(skipped@);
        proof {
            assert(named.take(i + 1).drop_last() =~= named.take(i as int));
            assert(named.take(i + 1).last() == references@[i as int]@);
        }
        match base.join(references[i].as_str()) {
            Ok(url) => {
                let ghost parts = url@;
                urls.push(url);
                assert(subtree::url_views(urls@) =~= urls_before.push(parts));
            },
            Err(_) => {
                skipped.push(references[i].clone());
                assert(text::texts(skipped@) =~= skipped_before.push(references@[i as int]@));
            },
        }
        i += 1;
    }
    assert(named.take(named.len() as int) =~= named);
    (urls, skipped)
}

/// A subtree root and where its document is.
#[verifier::ext_equal]
pub struct ChildModel {
    pub coordinates: Coordinates,
    pub url: UrlParts,
}

/// What a list of child subtrees stands for.
pub open spec fn child_views(children: Seq<(Coordinates, Url)>) -> Seq<ChildModel> {
    children.map_values(|c: (Coordinates, Url)| ChildModel { coordinates: c.0, url: c.1@ })
}

/// Where the document of a child subtree is: its override template is relative to
/// the subtree that names it, the tileset's own to the tileset document.
pub open spec fn child_url(
    tiling: TilingModel,
    current: UrlParts,
    template: Option<Seq<char>>,
    child: Coordinates,
) -> core::result::Result<UrlParts, ErrorModel> {
    match template {
        Some(t) => web_url::join_outcome(current, substituted(t, child)),
        None => web_url::join_outcome(
            tiling.base,
            substituted(tiling.subtree_uri_template, child),
        ),
    }
}

/// The child subtrees with a Morton index below `n` that exist, in Morton order; or
/// the error of the first whose document cannot be resolved.
pub open spec fn children_below(
    tiling: TilingModel,
    root: Coordinates,
    available: AvailabilityModel,
    current: UrlParts,
    template: Option<Seq<char>>,
    n: nat,
) -> core::result::Result<Seq<ChildModel>, ErrorModel>
    decreases n,
{
    if n == 0 {
        Ok(Seq::empty())
    } else {
        match children_below(tiling, root, available, current, template, (n - 1) as nat) {
            Err(error) => Err(error),
            Ok(children) => if subtree::is_available(available, n - 1) {
                let coordinates = tile_in(
                    tiling.subdivision,
                    root,
                    tiling.subtree_levels,
                    (n - 1) as u32,
                );
                match child_url(tiling, current, template, coordinates) {
                    Ok(url) => Ok(children.push(ChildModel { coordinates, url })),
                    Err(error) => Err(error),
                }
            } else {
                Ok(children)
            },
        }
    }
}

/// The child subtrees of a subtree. Past the last available level there is nothing
/// left to subdivide into.
pub open spec fn children_of(
    tiling: TilingModel,
    root: Coordinates,
    available: AvailabilityModel,
    current: UrlParts,
    template: Option<Seq<char>>,
) -> core::result::Result<Seq<ChildModel>, ErrorModel> {
    if root.level + tiling.subtree_levels >= tiling.available_levels {
        Ok(Seq::empty())
    } else {
        children_below(
            tiling,
            root,
            available,
            current,
            template,
            level_size(tiling.subdivision, tiling.subtree_levels as nat) as nat,
        )
    }
}

/// What a result of child subtrees stands for.
pub open spec fn children_outcome(result: Result<Vec<(Coordinates, Url)>>) -> core::result::Result<
    Seq<ChildModel>,
    ErrorModel,
> {
    match result {
        Ok(children) => Ok(child_views(children@)),
        Err(error) => Err(error@),
    }
}

proof fn lemma_first_bad_child(
    tiling: TilingModel,
    root: Coordinates,
    available: AvailabilityModel,
    current: UrlParts,
    template: Option<Seq<char>>,
    n: nat,
    m: nat,
)
    requires
        n <= m,
        children_below(tiling, root, available, current, template, n) is Err,
    ensures
        children_below(tiling, root, available, current, template, m) == children_below(
            tiling,
            root,
            available,
            current,
            template,
            n,
        ),
    decreases m - n,
{
    if n < m {
        lemma_first_bad_child(tiling, root, available, current, template, n, (m - 1) as nat);
    }
}

impl ImplicitTiling {
    /// What enumerating the tiles of one subtree of this tileset reads.
    pub open spec fn subtree_content(
        self,
        root: Coordinates,
        tiles: Availability,
        contents: Seq<Availability>,
        templates: Seq<&str>,
    ) -> SubtreeContent {
        SubtreeContent {
            scheme: self@.subdivision,
            available_levels: self@.available_levels,
            root,
            tiles: tiles@,
            contents: availability_views(contents),
            templates: tileset::str_texts(templates),
        }
    }

    fn add_level(
        &self,
        root: Coordinates,
        level: u32,
        tiles: &Availability,
        contents: &Vec<Availability>,
        templates: &Vec<&str>,
        out: &mut Vec<String>,
    ) -> (available: usize)
        requires
            level < self@.subtree_levels,
            root.level + level < self@.available_levels,
        ensures
            ({
                let s = self.subtree_content(root, *tiles, contents@, templates@);
                let size = level_size(self@.subdivision, level as nat) as nat;
                &&& text::texts(final(out)@) == text::texts(old(out)@) + level_references(
                    s,
                    level,
                    size,
                )
                &&& available == level_tiles(s, level, size)
                &&& available <= size
            }),
    {
        proof {
            use_type_invariant(self);
            lemma_level_size(self.subdivision, level as nat);
            lemma_tiles_above(self.subdivision, level as nat);
        }
        let ghost s = self.subtree_content(root, *tiles, contents@, templates@);
        let ghost start = text::texts(out@);
        let factor = self.subdivision.branching_factor();
        let offset = level_offset(factor, level as u64);
        let size = raise(factor, level as u64);
        let mut available: usize = 0;
        let mut morton: u64 = 0;
        assert(start + Seq::<Seq<char>>::empty() =~= start);
        while morton < size
            invariant
                morton <= size,
                size == level_size(self@.subdivision, level as nat),
                size <= 0x4000_0000,
                offset == tiles_above(branching(self@.subdivision) as int, level as nat),
                offset <= size,
                level < self@.subtree_levels,
                levels_in_range(self@),
                root.level + level < self@.available_levels,
                s == self.subtree_content(root, *tiles, contents@, templates@),
                text::texts(out@) == start + level_references(s, level, morton as nat),
                available == level_tiles(s, level, morton as nat),
                available <= morton,
            decreases size - morton,
        {
            let index = offset + morton;
            let ghost done = level_references(s, level, morton as nat);
            assert(index as int == tile_index(s.scheme, level as nat, morton as int));
            if tiles.get(index) {
                available += 1;
                proof {
                    lemma_local_fits(self@.subdivision, root, level, morton as u32);
                }
                let (x, y, z) = decode_local(self.subdivision, morton as u32);
                let tile = Coordinates {
                    level: root.level + level as u64,
                    x: (root.x << level) + x,
                    y: (root.y << level) + y,
                    z: (root.z << level) + z,
                };
                assert(tile == tile_in(s.scheme, s.root, level, morton as u32));
                add_tile_references(tile, index, contents, templates, out);
                proof {
                    let added = tile_references(tile, index as int, s.contents, s.templates);
                    assert(start + (done + added) =~= (start + done) + added);
                }
            } else {
                assert(done + Seq::<Seq<char>>::empty() =~= done);
            }
            morton += 1;
        }
        available
    }

    /// Walks every tile of one subtree: the references of their contents, and how
    /// many tiles there are.
    pub fn content_references(
        &self,
        root: Coordinates,
        tiles: &Availability,
        contents: &Vec<Availability>,
        templates: &Vec<&str>,
    ) -> (out: (Vec<String>, usize))
        ensures
            ({
                let s = self.subtree_content(root, *tiles, contents@, templates@);
                let levels = self@.subtree_levels as nat;
                &&& text::texts(out.0@) == subtree_references(s, levels)
                &&& out.1 == subtree_tiles(s, levels)
            }),
    {
        proof {
            use_type_invariant(self);
            lemma_level_size(self.subdivision, self.subtree_levels as nat);
            lemma_tiles_above(self.subdivision, self.subtree_levels as nat);
        }
        let ghost s = self.subtree_content(root, *tiles, contents@, templates@);
        let mut references: Vec<String> = Vec::new();
        let mut available: usize = 0;
        let mut level: u32 = 0;
        assert(text::texts(references@) =~= Seq::<Seq<char>>::empty());
        while level < self.subtree_levels
            invariant
                level <= self.subtree_levels,
                self.subtree_levels == self@.subtree_levels,
                self.available_levels == self@.available_levels,
                levels_in_range(self@),
                s == self.subtree_content(root, *tiles, contents@, templates@),
                text::texts(references@) == subtree_references(s, level as nat),
                available == subtree_tiles(s, level as nat),
            decreases self.subtree_levels - level,
        {
            let ghost done = text::texts(references@);
            if root.level < self.available_levels && root.level + (level as u64)
                < self.available_levels {
                let ghost counted = subtree_tiles(s, level as nat);
                proof {
                    lemma_subtree_tiles(s, level as nat);
                    lemma_tiles_above(s.scheme, level as nat);
                    lemma_level_size(s.scheme, level as nat);
                }
                let added = self.add_level(root, level, tiles, contents, templates, &mut references);
                available = available + added;
            } else {
                assert(!level_exists(s, level as int));
                assert(done + Seq::<Seq<char>>::empty() =~= done);
            }
            level += 1;
        }
        (references, available)
    }

    /// Enumerates child subtrees from `childSubtreeAvailability`.
    pub fn collect_child_subtrees(
        &self,
        root: Coordinates,
        child_availability: &Availability,
        subtree_uri_override: Option<&str>,
        current_url: &Url,
    ) -> (out: Result<Vec<(Coordinates, Url)>>)
        requires
            root.level + self@.subtree_levels <= u64::MAX,
        ensures
            children_outcome(out) == children_of(
                self@,
                root,
                child_availability@,
                current_url@,
                web_url::optional_str(subtree_uri_override),
            ),
    {
        let mut out: Vec<(Coordinates, Url)> = Vec::new();
        let ghost template = web_url::optional_str(subtree_uri_override);
        assert(child_views(out@) =~= Seq::<ChildModel>::empty());
        let level = root.level + self.subtree_levels as u64;
        if level >= self.available_levels {
            return Ok(out);
        }
        proof {
            use_type_invariant(self);
            lemma_level_size(self.subdivision, self.subtree_levels as nat);
        }
        let size = raise(self.subdivision.branching_factor(), self.subtree_levels as u64);
        let mut morton: u64 = 0;
        while morton < size
            invariant
                morton <= size,
                size == level_size(self@.subdivision, self@.subtree_levels as nat),
                size <= 0x4000_0000,
                levels_in_range(self@),
                self.subtree_levels == self@.subtree_levels,
                level == root.level + self@.subtree_levels,
                level < self@.available_levels,
                template == web_url::optional_str(subtree_uri_override),
                children_below(
                    self@,
                    root,
                    child_availability@,
                    current_url@,
                    template,
                    morton as nat,
                ) == Ok::<Seq<ChildModel>, ErrorModel>(child_views(out@)),
            decreases size - morton,
        {
            let ghost before = child_views(out@);
            if child_availability.get(morton) {
                proof {
                    lemma_local_fits(
                        self@.subdivision,
                        root,
                        self@.subtree_levels,
                        morton as u32,
                    );
                }
                let (x, y, z) = decode_local(self.subdivision, morton as u32);
                let child = Coordinates {
                    level,
                    x: (root.x << self.subtree_levels) + x,
                    y: (root.y << self.subtree_levels) + y,
                    z: (root.z << self.subtree_levels) + z,
                };
                assert(child == tile_in(
                    self@.subdivision,
                    root,
                    self@.subtree_levels,
                    morton as u32,
                ));
                let url = match subtree_uri_override {
                    Some(t) => {
                        let reference = substitute(t, child);
                        current_url.join(reference.as_str())
                    },
                    None => self.subtree_url(child),
                };
                match url {
                    Ok(url) => {
                        let ghost added = ChildModel { coordinates: child, url: url@ };
                        out.push((child, url));
                        assert(child_views(out@) =~= before.push(added));
                    },
                    Err(error) => {
                        proof {
                            lemma_first_bad_child(
                                self@,
                                root,
                                child_availability@,
                                current_url@,
                                template,
                                (morton + 1) as nat,
                                size as nat,
                            );
                        }
                        return Err(error);
                    },
                }
            }
            morton += 1;
        }
        Ok(out)
    }
}

/// What one subtree document contributes to the download plan.
#[derive(Debug, Default)]
pub struct SubtreeExpansion {
    /// Content files, one per available tile that has content.
    pub content_urls: Vec<Url>,
    /// Child subtrees that exist, with their coordinates.
    pub child_subtrees: Vec<(Coordinates, Url)>,
    /// Buffers referenced by URI rather than held in the binary chunk.
    pub external_buffers: Vec<Url>,
    /// How many tiles the subtree declares available.
    pub available_tiles: usize,
    /// Content URIs that do not resolve, and are left out.
    pub unresolved: Vec<String>,
    /// Whether the document had no content availability, so that every available
    /// tile was taken to have content.
    pub assumed_content: bool,
}

/// What a [`SubtreeExpansion`] stands for.
#[verifier::ext_equal]
pub struct ExpansionModel {
    pub content_urls: Seq<UrlParts>,
    pub child_subtrees: Seq<ChildModel>,
    pub external_buffers: Seq<UrlParts>,
    pub available_tiles: usize,
    pub unresolved: Seq<Seq<char>>,
    pub assumed_content: bool,
}

impl View for SubtreeExpansion {
    type V = ExpansionModel;

    open spec fn view(&self) -> ExpansionModel {
        ExpansionModel {
            content_urls: subtree::url_views(self.content_urls@),
            child_subtrees: child_views(self.child_subtrees@),
            external_buffers: subtree::url_views(self.external_buffers@),
            available_tiles: self.available_tiles,
            unresolved: text::texts(self.unresolved@),
            assumed_content: self.assumed_content,
        }
    }
}

/// How many bits a subtree's `tileAvailability` holds.
pub open spec fn tile_bits(tiling: TilingModel) -> nat {
    tiles_above(branching(tiling.subdivision) as int, tiling.subtree_levels as nat) as nat
}

/// How many bits a subtree's `childSubtreeAvailability` holds.
pub open spec fn child_bits(tiling: TilingModel) -> nat {
    level_size(tiling.subdivision, tiling.subtree_levels as nat) as nat
}

/// The first `n` content availabilities of a document, or the first defect.
pub open spec fn contents_read(
    entries: Seq<JsonModel>,
    bits: nat,
    views: Seq<Seq<u8>>,
    url: UrlParts,
    n: nat,
) -> core::result::Result<Seq<AvailabilityModel>, ErrorModel>
    decreases n,
{
    if n == 0 {
        Ok(Seq::empty())
    } else {
        match contents_read(entries, bits, views, url, (n - 1) as nat) {
            Err(error) => Err(error),
            Ok(read) => match subtree::availability_of(
                entries[n - 1],
                bits,
                views,
                url,
                "contentAvailability["@ + text::decimal((n - 1) as nat) + "]"@,
            ) {
                Ok(availability) => Ok(read.push(availability)),
                Err(error) => Err(error),
            },
        }
    }
}

/// Which tiles have content. Content availability is optional in the schema. Its
/// absence is ambiguous, and silently downloading nothing is the worst possible
/// outcome for a downloader, so tile availability takes its place.
pub open spec fn content_of(
    document: SubtreeModel,
    tiles: AvailabilityModel,
    bits: nat,
    views: Seq<Seq<u8>>,
    url: UrlParts,
) -> core::result::Result<Seq<AvailabilityModel>, ErrorModel> {
    match subtree::content_entries(document) {
        Some(entries) => contents_read(entries, bits, views, url, entries.len()),
        None => Ok(seq![tiles]),
    }
}

/// The content templates of a subtree: its own override, or the tileset's.
pub open spec fn templates_of(tiling: TilingModel, document: SubtreeModel) -> Seq<Seq<char>> {
    match document.content_uri {
        Some(uri) => seq![uri],
        None => tiling.content_templates,
    }
}

/// The three availabilities of a subtree document.
#[verifier::ext_equal]
pub struct SubtreeBits {
    /// Which tiles exist.
    pub tiles: AvailabilityModel,
    /// Which tiles have content, one entry per content.
    pub contents: Seq<AvailabilityModel>,
    /// Which child subtrees exist.
    pub children: AvailabilityModel,
}

/// The three availabilities of a subtree document, or its first defect.
pub open spec fn subtree_bits(
    tiling: TilingModel,
    url: UrlParts,
    document: SubtreeModel,
    buffers: Seq<Seq<u8>>,
) -> core::result::Result<SubtreeBits, ErrorModel> {
    let headers = document.buffer_views;
    match subtree::views_of(headers, buffers, url, headers.len()) {
        Err(error) => Err(error),
        Ok(views) => match subtree::availability_of(
            document.tile_availability,
            tile_bits(tiling),
            views,
            url,
            "tileAvailability"@,
        ) {
            Err(error) => Err(error),
            Ok(tiles) => match content_of(document, tiles, tile_bits(tiling), views, url) {
                Err(error) => Err(error),
                Ok(contents) => match subtree::availability_of(
                    document.child_subtree_availability,
                    child_bits(tiling),
                    views,
                    url,
                    "childSubtreeAvailability"@,
                ) {
                    Err(error) => Err(error),
                    Ok(children) => Ok(SubtreeBits { tiles, contents, children }),
                },
            },
        },
    }
}

/// What enumerating the tiles of a decoded subtree reads.
pub open spec fn content_to_walk(
    tiling: TilingModel,
    root: Coordinates,
    document: SubtreeModel,
    bits: SubtreeBits,
) -> SubtreeContent {
    SubtreeContent {
        scheme: tiling.subdivision,
        available_levels: tiling.available_levels,
        root,
        tiles: bits.tiles,
        contents: bits.contents,
        templates: templates_of(tiling, document),
    }
}

/// Everything that one subtree document makes available.
pub open spec fn expansion(
    tiling: TilingModel,
    root: Coordinates,
    url: UrlParts,
    document: SubtreeModel,
    loaded: LoadedModel,
) -> core::result::Result<ExpansionModel, ErrorModel> {
    match subtree_bits(tiling, url, document, loaded.buffers) {
        Err(error) => Err(error),
        Ok(bits) => {
            let s = content_to_walk(tiling, root, document, bits);
            let levels = tiling.subtree_levels as nat;
            let references = subtree_references(s, levels);
            match children_of(tiling, root, bits.children, url, document.subtree_uri) {
                Err(error) => Err(error),
                Ok(children) => Ok(
                    ExpansionModel {
                        content_urls: resolved(tiling.base, references),
                        child_subtrees: children,
                        external_buffers: loaded.external,
                        available_tiles: subtree_tiles(s, levels) as usize,
                        unresolved: unresolved(tiling.base, references),
                        assumed_content: subtree::content_entries(document) is None,
                    },
                ),
            }
        },
    }
}

proof fn lemma_first_bad_content(
    entries: Seq<JsonModel>,
    bits: nat,
    views: Seq<Seq<u8>>,
    url: UrlParts,
    n: nat,
    m: nat,
)
    requires
        n <= m,
        contents_read(entries, bits, views, url, n) is Err,
    ensures
        contents_read(entries, bits, views, url, m) == contents_read(entries, bits, views, url, n),
    decreases m - n,
{
    if n < m {
        lemma_first_bad_content(entries, bits, views, url, n, (m - 1) as nat);
    }
}

/// What a result of availabilities stands for.
pub open spec fn contents_outcome(result: Result<Vec<Availability>>) -> core::result::Result<
    Seq<AvailabilityModel>,
    ErrorModel,
> {
    match result {
        Ok(list) => Ok(availability_views(list@)),
        Err(error) => Err(error@),
    }
}

fn read_contents(entries: &Vec<Json>, bits: u64, views: &Vec<&[u8]>, url: &Url) -> (out: Result<
    Vec<Availability>,
>)
    ensures
        contents_outcome(out) == contents_read(
            json::values_view(entries@),
            bits as nat,
            subtree::slice_views(views@),
            url@,
            entries@.len(),
        ),
{
    let ghost models = json::values_view(entries@);
    let ghost slices = subtree::slice_views(views@);
    let mut out: Vec<Availability> = Vec::new();
    let mut i: usize = 0;
    assert(availability_views(out@) =~= Seq::<AvailabilityModel>::empty());
    while i < entries.len()
        invariant
            i <= entries.len(),
            models == json::values_view(entries@),
            slices == subtree::slice_views(views@),
            contents_read(models, bits as nat, slices, url@, i as nat) == Ok::<
                Seq<AvailabilityModel>,
                ErrorModel,
            >(availability_views(out@)),
        decreases entries.len() - i,
    {
        let ghost before = availability_views(out@);
        let mut what = "contentAvailability[".to_owned();
        what.append(text::decimal_text(i as u64).as_str());
        what.append("]");
        assert(models[i as int] == entries@[i as int]@);
        match subtree::read_availability(&entries[i], bits, views, url, what.as_str()) {
            Ok(availability) => {
                let ghost added = availability@;
                out.push(availability);
                assert(availability_views(out@) =~= before.push(added));
            },
            Err(error) => {
                proof {
                    lemma_first_bad_content(
                        models,
                        bits as nat,
                        slices,
                        url@,
                        (i + 1) as nat,
                        models.len(),
                    );
                }
                return Err(error);
            },
        }
        i += 1;
    }
    Ok(out)
}

fn borrow_all(strings: &Vec<String>) -> (out: Vec<&str>)
    ensures
        tileset::str_texts(out@) == text::texts(strings@),
{
    let mut out: Vec<&str> = Vec::new();
    let mut i: usize = 0;
    while i < strings.len()
        invariant
            i <= strings.len(),
            tileset::str_texts(out@) == text::texts(strings@).take(i as int),
        decreases strings.len() - i,
    {
        let ghost before = tileset::str_texts(out@);
        out.push(strings[i].as_str());
        assert(tileset::str_texts(out@) =~= before.push(strings@[i as int]@));
        assert(text::texts(strings@).take(i + 1) =~= before.push(strings@[i as int]@));
        i += 1;
    }
    assert(text::texts(strings@).take(i as int) =~= text::texts(strings@));
    out
}

impl ImplicitTiling {
    /// Decodes one subtree document and enumerates everything it makes available.
    ///
    /// `loaded` holds the document's buffers; all but its own binary chunk were
    /// fetched, which is rare (the `bufferViews` of a normal subtree index its own
    /// binary chunk).
    pub fn expand_subtree(
        &self,
        coordinates: Coordinates,
        subtree_url: &Url,
        document: &SubtreeDocument,
        loaded: LoadedBuffers,
    ) -> (out: Result<SubtreeExpansion>)
        requires
            coordinates.level + self@.subtree_levels <= u64::MAX,
        ensures
            error::outcome(out) == expansion(
                self@,
                coordinates,
                subtree_url@,
                document@,
                loaded@,
            ),
    {
        proof {
            use_type_invariant(self);
            lemma_level_size(self.subdivision, self.subtree_levels as nat);
            lemma_tiles_above(self.subdivision, self.subtree_levels as nat);
        }
        let ghost model = loaded@;
        let LoadedBuffers { buffers, external } = loaded;
        let views = subtree::buffer_view_slices(document, &buffers, subtree_url)?;
        let tile_bits = self.tile_bit_count();
        let child_bits = raise(self.subdivision.branching_factor(), self.subtree_levels as u64);
        let tiles = subtree::read_availability(
            &document.tile_availability,
            tile_bits,
            &views,
            subtree_url,
            "tileAvailability",
        )?;
        let (contents, assumed_content) = match document.content_availability() {
            Some(entries) => (read_contents(entries, tile_bits, &views, subtree_url)?, false),
            None => {
                let mut assumed: Vec<Availability> = Vec::new();
                assumed.push(tiles.duplicate());
                assert(availability_views(assumed@) =~= seq![tiles@]);
                (assumed, true)
            },
        };
        let children = subtree::read_availability(
            &document.child_subtree_availability,
            child_bits,
            &views,
            subtree_url,
            "childSubtreeAvailability",
        )?;
        // A subtree may override the tileset's content template.
        let templates: Vec<&str> = match &document.content_uri {
            Some(uri) => {
                let mut only: Vec<&str> = Vec::new();
                only.push(uri.as_str());
                assert(tileset::str_texts(only@) =~= seq![uri@]);
                only
            },
            None => borrow_all(&self.content_templates),
        };
        let ghost bits = SubtreeBits {
            tiles: tiles@,
            contents: availability_views(contents@),
            children: children@,
        };
        assert(self.subtree_content(coordinates, tiles, contents@, templates@)
            == content_to_walk(self@, coordinates, document@, bits));
        let (references, available_tiles) = self.content_references(
            coordinates,
            &tiles,
            &contents,
            &templates,
        );
        let (content_urls, unresolved) = resolve_all(&self.base, references);
        let template = match &document.subtree_uri {
            Some(uri) => Some(uri.as_str()),
            None => None,
        };
        let child_subtrees = self.collect_child_subtrees(
            coordinates,
            &children,
            template,
            subtree_url,
        )?;
        Ok(
            SubtreeExpansion {
                content_urls,
                child_subtrees,
                external_buffers: external,
                available_tiles,
                unresolved,
                assumed_content,
            },
        )
    }
}

/// The tile that a subtree bit stands for has that bit's Morton index: `index` is
/// the Morton index of the local coordinates it is decoded to.
pub proof fn law_bits_are_in_morton_order(scheme: SubdivisionScheme, level: u32, index: u32)
    requires
        level <= most_subtree_levels(scheme),
        index < level_size(scheme, level as nat),
    ensures
        ({
            let local = local_coordinates(scheme, index);
            morton_index(
                Coordinates { level: level as u64, x: local.0, y: local.1, z: local.2 },
                scheme,
            ) == index
        }),
{
    lemma_level_size(scheme, level as nat);
    match scheme {
        SubdivisionScheme::Quadtree => {
            morton::law_round_trip_index_2d(index);
        },
        SubdivisionScheme::Octree => {
            morton::law_round_trip_index_3d(index);
        },
    }
}

/// Every tile of a subtree has a bit of its own: tiles of a higher level come first,
/// and all bits lie below the length of `tileAvailability`.
pub proof fn law_tile_indices_are_ordered(
    scheme: SubdivisionScheme,
    levels: nat,
    level: nat,
    morton: int,
    below: nat,
    other: int,
)
    requires
        level < below < levels,
        0 <= morton < level_size(scheme, level),
        0 <= other < level_size(scheme, below),
    ensures
        0 <= tile_index(scheme, level, morton) < tile_index(scheme, below, other) < tiles_above(
            branching(scheme) as int,
            levels,
        ),
{
    lemma_offsets_grow(scheme, 0, level);
    lemma_offsets_grow(scheme, level + 1, below);
    lemma_offsets_grow(scheme, below + 1, levels);
    law_levels_are_consecutive(scheme, level);
    law_levels_are_consecutive(scheme, below);
}

proof fn lemma_offsets_grow(scheme: SubdivisionScheme, level: nat, below: nat)
    requires
        level <= below,
    ensures
        tiles_above(branching(scheme) as int, level) <= tiles_above(
            branching(scheme) as int,
            below,
        ),
    decreases below - level,
{
    if level < below {
        lemma_offsets_grow(scheme, level, (below - 1) as nat);
        law_levels_are_consecutive(scheme, (below - 1) as nat);
        power::lemma_pow_positive(branching(scheme) as int, (below - 1) as nat);
    }
}

proof fn lemma_present_contains(uris: Seq<Option<Seq<char>>>, i: int)
    requires
        0 <= i < uris.len(),
        uris[i] is Some,
    ensures
        tileset::present(uris).contains(uris[i]->0),
    decreases uris.len(),
{
    let front = uris.drop_last();
    let found = tileset::present(uris);
    if i < front.len() {
        lemma_present_contains(front, i);
        let before = tileset::present(front);
        let j = choose|j: int| 0 <= j < before.len() && before[j] == uris[i]->0;
        assert(found[j] == uris[i]->0);
    } else {
        assert(found[found.len() - 1] == uris[i]->0);
    }
}

proof fn lemma_present_from(uris: Seq<Option<Seq<char>>>, uri: Seq<char>)
    requires
        tileset::present(uris).contains(uri),
    ensures
        exists|i: int| 0 <= i < uris.len() && #[trigger] uris[i] == Some(uri),
    decreases uris.len(),
{
    let found = tileset::present(uris);
    let j = choose|j: int| 0 <= j < found.len() && found[j] == uri;
    let front = uris.drop_last();
    let before = tileset::present(front);
    if j < before.len() {
        assert(before.contains(before[j]));
        lemma_present_from(front, uri);
        let i = choose|i: int| 0 <= i < front.len() && #[trigger] front[i] == Some(uri);
        assert(uris[i] == Some(uri));
    } else {
        assert(uris[uris.len() - 1] == Some(uri));
    }
}

/// One content of one tile of a subtree is available, and a template names it.
pub open spec fn is_named(s: SubtreeContent, levels: nat, level: u32, morton: u32, k: int) -> bool {
    let bit = tile_index(s.scheme, level as nat, morton as int);
    &&& level < levels
    &&& s.root.level + level < s.available_levels
    &&& morton < level_size(s.scheme, level as nat)
    &&& 0 <= k < s.contents.len()
    &&& subtree::is_available(s.tiles, bit)
    &&& subtree::is_available(s.contents[k], bit)
    &&& template_for(s.templates, k) is Some
}

/// The reference of one content of one tile.
pub open spec fn named_reference(s: SubtreeContent, level: u32, morton: u32, k: int) -> Seq<char> {
    substituted(template_for(s.templates, k)->0, tile_in(s.scheme, s.root, level, morton))
}

proof fn lemma_level_complete(s: SubtreeContent, level: u32, n: nat, morton: u32, k: int)
    requires
        morton < n <= level_size(s.scheme, level as nat),
        n <= 0x4000_0000,
        is_named(s, (level + 1) as nat, level, morton, k),
    ensures
        level_references(s, level, n).contains(named_reference(s, level, morton, k)),
    decreases n,
{
    let bit = tile_index(s.scheme, level as nat, n - 1);
    let before = level_references(s, level, (n - 1) as nat);
    let all = level_references(s, level, n);
    let wanted = named_reference(s, level, morton, k);
    if morton < n - 1 {
        lemma_level_complete(s, level, (n - 1) as nat, morton, k);
        let j = choose|j: int| 0 <= j < before.len() && before[j] == wanted;
        assert(all[j] == wanted);
    } else {
        let tile = tile_in(s.scheme, s.root, level, morton);
        let list = Seq::new(
            s.contents.len(),
            |k: int|
                content_reference(tile, bit, s.contents[k], template_for(s.templates, k)),
        );
        lemma_present_contains(list, k);
        let own = tile_references(tile, bit, s.contents, s.templates);
        let j = choose|j: int| 0 <= j < own.len() && own[j] == wanted;
        assert(all[before.len() + j] == wanted);
    }
}

/// No content is missed: every content of every available tile that a template names
/// is among the references of the subtree.
pub proof fn law_every_content_is_referenced(
    s: SubtreeContent,
    levels: nat,
    level: u32,
    morton: u32,
    k: int,
)
    requires
        levels <= most_subtree_levels(s.scheme),
        is_named(s, levels, level, morton, k),
    ensures
        subtree_references(s, levels).contains(named_reference(s, level, morton, k)),
    decreases levels,
{
    let before = subtree_references(s, (levels - 1) as nat);
    let all = subtree_references(s, levels);
    let wanted = named_reference(s, level, morton, k);
    if level < levels - 1 {
        law_every_content_is_referenced(s, (levels - 1) as nat, level, morton, k);
        let j = choose|j: int| 0 <= j < before.len() && before[j] == wanted;
        assert(all[j] == wanted);
    } else {
        let size = level_size(s.scheme, level as nat) as nat;
        lemma_level_size(s.scheme, level as nat);
        lemma_level_complete(s, level, size, morton, k);
        let own = level_references(s, level, size);
        let j = choose|j: int| 0 <= j < own.len() && own[j] == wanted;
        assert(all[before.len() + j] == wanted);
    }
}

proof fn lemma_level_sound(s: SubtreeContent, level: u32, n: nat, reference: Seq<char>)
    requires
        level_exists(s, level as int),
        n <= level_size(s.scheme, level as nat),
        n <= 0x4000_0000,
        level_references(s, level, n).contains(reference),
    ensures
        exists|morton: u32, k: int|
            #[trigger] is_named(s, (level + 1) as nat, level, morton, k) && named_reference(
                s,
                level,
                morton,
                k,
            ) == reference,
    decreases n,
{
    let all = level_references(s, level, n);
    let j = choose|j: int| 0 <= j < all.len() && all[j] == reference;
    let before = level_references(s, level, (n - 1) as nat);
    if j < before.len() {
        assert(before.contains(before[j]));
        lemma_level_sound(s, level, (n - 1) as nat, reference);
    } else {
        let bit = tile_index(s.scheme, level as nat, n - 1);
        let morton = (n - 1) as u32;
        let tile = tile_in(s.scheme, s.root, level, morton);
        let own = tile_references(tile, bit, s.contents, s.templates);
        assert(own[j - before.len()] == reference);
        assert(own.contains(reference));
        let list = Seq::new(
            s.contents.len(),
            |k: int|
                content_reference(tile, bit, s.contents[k], template_for(s.templates, k)),
        );
        lemma_present_from(list, reference);
        let k = choose|k: int| 0 <= k < list.len() && #[trigger] list[k] == Some(reference);
        assert(is_named(s, (level + 1) as nat, level, morton, k));
    }
}

/// Nothing is made up: every reference of the subtree is that of an available
/// content of an available tile, filled with that tile's global coordinates.
pub proof fn law_every_reference_is_named(s: SubtreeContent, levels: nat, reference: Seq<char>)
    requires
        levels <= most_subtree_levels(s.scheme),
        subtree_references(s, levels).contains(reference),
    ensures
        exists|level: u32, morton: u32, k: int|
            #[trigger] is_named(s, levels, level, morton, k) && named_reference(
                s,
                level,
                morton,
                k,
            ) == reference,
    decreases levels,
{
    let all = subtree_references(s, levels);
    let j = choose|j: int| 0 <= j < all.len() && all[j] == reference;
    let before = subtree_references(s, (levels - 1) as nat);
    if j < before.len() {
        assert(before.contains(before[j]));
        law_every_reference_is_named(s, (levels - 1) as nat, reference);
        let (level, morton, k) = choose|level: u32, morton: u32, k: int|
            #[trigger] is_named(s, (levels - 1) as nat, level, morton, k) && named_reference(
                s,
                level,
                morton,
                k,
            ) == reference;
        assert(is_named(s, levels, level, morton, k));
    } else {
        let level = (levels - 1) as u32;
        let size = level_size(s.scheme, level as nat) as nat;
        lemma_level_size(s.scheme, level as nat);
        let own = level_references(s, level, size);
        assert(own[j - before.len()] == reference);
        assert(own.contains(reference));
        lemma_level_sound(s, level, size, reference);
        let (morton, k) = choose|morton: u32, k: int|
            #[trigger] is_named(s, (level + 1) as nat, level, morton, k) && named_reference(
                s,
                level,
                morton,
                k,
            ) == reference;
        assert(is_named(s, levels, level, morton, k));
    }
}

proof fn lemma_assumed_level(s: SubtreeContent, level: u32, n: nat)
    requires
        s.contents == seq![s.tiles],
        s.templates.len() > 0,
    ensures
        level_references(s, level, n).len() == level_tiles(s, level, n),
    decreases n,
{
    if n > 0 {
        lemma_assumed_level(s, level, (n - 1) as nat);
        let bit = tile_index(s.scheme, level as nat, n - 1);
        let tile = tile_in(s.scheme, s.root, level, (n - 1) as u32);
        let list = Seq::new(
            s.contents.len(),
            |k: int|
                content_reference(tile, bit, s.contents[k], template_for(s.templates, k)),
        );
        assert(list.drop_last() =~= Seq::<Option<Seq<char>>>::empty());
        assert(tileset::present(list.drop_last()) =~= Seq::<Seq<char>>::empty());
        assert(s.contents[0] == s.tiles);
        assert(list.last() == content_reference(
            tile,
            bit,
            s.contents[0],
            template_for(s.templates, 0),
        ));
    }
}

/// A document without content availability is taken to have content for every tile
/// that exists: as soon as one template is known, there is exactly one reference per
/// available tile.
pub proof fn law_missing_content_falls_back(
    tiling: TilingModel,
    root: Coordinates,
    url: UrlParts,
    document: SubtreeModel,
    buffers: Seq<Seq<u8>>,
)
    requires
        subtree::content_entries(document) is None,
        templates_of(tiling, document).len() > 0,
    ensures
        subtree_bits(tiling, url, document, buffers) matches Ok(bits) ==> {
            let s = content_to_walk(tiling, root, document, bits);
            let levels = tiling.subtree_levels as nat;
            &&& bits.contents == seq![bits.tiles]
            &&& subtree_references(s, levels).len() == subtree_tiles(s, levels)
        },
{
    if let Ok(bits) = subtree_bits(tiling, url, document, buffers) {
        let s = content_to_walk(tiling, root, document, bits);
        lemma_assumed_subtree(s, tiling.subtree_levels as nat);
    }
}

proof fn lemma_assumed_subtree(s: SubtreeContent, n: nat)
    requires
        s.contents == seq![s.tiles],
        s.templates.len() > 0,
    ensures
        subtree_references(s, n).len() == subtree_tiles(s, n),
    decreases n,
{
    if n > 0 {
        lemma_assumed_subtree(s, (n - 1) as nat);
        lemma_assumed_level(
            s,
            (n - 1) as u32,
            level_size(s.scheme, (n - 1) as nat) as nat,
        );
    }
}

/// The descent is bounded: every child subtree starts as many levels further down as
/// a subtree covers, and still above the number of available levels.
pub proof fn law_children_descend(
    tiling: TilingModel,
    root: Coordinates,
    available: AvailabilityModel,
    current: UrlParts,
    template: Option<Seq<char>>,
)
    requires
        levels_in_range(tiling),
    ensures
        children_of(tiling, root, available, current, template) matches Ok(children) ==> (
        forall|i: int|
            0 <= i < children.len() ==> root.level < (#[trigger] children[i]).coordinates.level
                && children[i].coordinates.level == root.level + tiling.subtree_levels
                && children[i].coordinates.level < tiling.available_levels),
{
    if root.level + tiling.subtree_levels < tiling.available_levels {
        lemma_children_level(
            tiling,
            root,
            available,
            current,
            template,
            level_size(tiling.subdivision, tiling.subtree_levels as nat) as nat,
        );
    }
}

proof fn lemma_children_level(
    tiling: TilingModel,
    root: Coordinates,
    available: AvailabilityModel,
    current: UrlParts,
    template: Option<Seq<char>>,
    n: nat,
)
    requires
        root.level + tiling.subtree_levels <= u64::MAX,
    ensures
        children_below(tiling, root, available, current, template, n) matches Ok(children) ==> (
        forall|i: int|
            0 <= i < children.len() ==> (#[trigger] children[i]).coordinates.level == root.level
                + tiling.subtree_levels),
    decreases n,
{
    if n > 0 {
        lemma_children_level(tiling, root, available, current, template, (n - 1) as nat);
    }
}

/// The two schemes go by the names of the schema, a tile has a child for each half along
/// each of its two or three axes, and a subtree has at most as many levels as a 32-bit
/// Morton index leaves room for.
pub proof fn law_schemes_split_their_axes(value: Seq<char>, scheme: SubdivisionScheme)
    ensures
        scheme_named(value) == Some(SubdivisionScheme::Quadtree) <==> value == seq![
            'Q', 'U', 'A', 'D', 'T', 'R', 'E', 'E',
        ],
        scheme_named(value) == Some(SubdivisionScheme::Octree) <==> value == seq![
            'O', 'C', 'T', 'R', 'E', 'E',
        ],
        scheme == SubdivisionScheme::Quadtree ==> branching(scheme) == 2 * 2
            && most_subtree_levels(scheme) == 15,
        scheme == SubdivisionScheme::Octree ==> branching(scheme) == 2 * 2 * 2
            && most_subtree_levels(scheme) == 9,
{
    reveal_strlit("QUADTREE");
    reveal_strlit("OCTREE");
    assert("QUADTREE"@ =~= seq!['Q', 'U', 'A', 'D', 'T', 'R', 'E', 'E']);
    assert("OCTREE"@ =~= seq!['O', 'C', 'T', 'R', 'E', 'E']);
}

/// The children of a tile lie where it does, at twice the resolution: the tile with Morton
/// index `4m + q` of a quadtree, or `8m + q` of an octree, has the coordinates of tile `m`
/// doubled, plus the binary digits of `q` in the order of the axes. The first tile of a
/// level is at the origin.
pub proof fn law_children_double_their_coordinates(index: u32, corner: u32)
    requires
        index < 0x1000_0000,
    ensures
        corner < 4 ==> ({
            let parent = local_coordinates(SubdivisionScheme::Quadtree, index);
            local_coordinates(SubdivisionScheme::Quadtree, (4 * index + corner) as u32) == (
                (2 * parent.0 + corner % 2) as u64,
                (2 * parent.1 + corner / 2) as u64,
                0u64,
            )
        }),
        corner < 8 && index < 0x0800_0000 ==> ({
            let parent = local_coordinates(SubdivisionScheme::Octree, index);
            local_coordinates(SubdivisionScheme::Octree, (8 * index + corner) as u32) == (
                (2 * parent.0 + corner % 2) as u64,
                (2 * parent.1 + corner / 2 % 2) as u64,
                (2 * parent.2 + corner / 4) as u64,
            )
        }),
        local_coordinates(SubdivisionScheme::Quadtree, 0) == (0u64, 0u64, 0u64),
        local_coordinates(SubdivisionScheme::Octree, 0) == (0u64, 0u64, 0u64),
{
    if corner < 4 {
        morton::lemma_gathered_child_2d(index, corner);
    }
    if corner < 8 && index < 0x0800_0000 {
        morton::lemma_gathered_child_3d(index, corner);
    }
    morton::lemma_gathered_origin();
}

/// Every level has as many times the tiles of the level above as a tile has children, and
/// the first has one.
pub proof fn law_levels_multiply(scheme: SubdivisionScheme, level: nat)
    ensures
        level_size(scheme, 0) == 1,
        scheme == SubdivisionScheme::Quadtree ==> level_size(scheme, level + 1) == 4 * level_size(
            scheme,
            level,
        ),
        scheme == SubdivisionScheme::Octree ==> level_size(scheme, level + 1) == 8 * level_size(
            scheme,
            level,
        ),
{
    let n = branching(scheme) as int;
    power::lemma_pow0(n);
    power::lemma_pow1(n);
    power::lemma_pow_adds(n, 1, level);
}

/// The tiles of a subtree are counted through: its root is the first, the next in a level
/// is the next, and behind the last of a level comes the first of the level below. A
/// subtree has a bit for each of its tiles, and a bit for each tile of the level below its
/// last, where its children start.
pub proof fn law_tiles_are_counted_through(tiling: TilingModel, level: nat, morton: int)
    ensures
        tile_index(tiling.subdivision, 0, 0) == 0,
        tile_index(tiling.subdivision, level, morton + 1) == tile_index(
            tiling.subdivision,
            level,
            morton,
        ) + 1,
        tile_index(tiling.subdivision, level + 1, 0) == tile_index(
            tiling.subdivision,
            level,
            level_size(tiling.subdivision, level) - 1,
        ) + 1,
        tile_bits(tiling) == tile_index(tiling.subdivision, tiling.subtree_levels as nat, 0),
        child_bits(tiling) == level_size(tiling.subdivision, tiling.subtree_levels as nat),
{
    let scheme = tiling.subdivision;
    let levels = tiling.subtree_levels as nat;
    law_levels_are_consecutive(scheme, level);
    lemma_level_size(scheme, levels);
    let n = branching(scheme) as int;
    let size = level_size(scheme, levels);
    assert((size - 1) / (n - 1) >= 0) by (nonlinear_arith)
        requires
            n == 4 || n == 8,
            size >= 1,
    ;
}

proof fn lemma_replace_passes(
    piece: Seq<char>,
    rest: Seq<char>,
    pattern: Seq<char>,
    with: Seq<char>,
)
    requires
        pattern.len() > 0,
        !piece.contains(pattern[0]),
    ensures
        text::replace(piece + rest, pattern, with) == piece + text::replace(rest, pattern, with),
    decreases piece.len(),
{
    let whole = piece + rest;
    if piece.len() == 0 {
        assert(whole =~= rest);
        assert(piece + text::replace(rest, pattern, with) =~= text::replace(rest, pattern, with));
    } else {
        let tail = piece.skip(1);
        assert(piece.contains(piece[0]));
        if text::starts_with(whole, pattern) {
            assert(whole.take(pattern.len() as int)[0] == pattern[0]);
        }
        if tail.contains(pattern[0]) {
            let i = choose|i: int| 0 <= i < tail.len() && tail[i] == pattern[0];
            assert(piece[i + 1] == pattern[0]);
        }
        lemma_replace_passes(tail, rest, pattern, with);
        assert(whole.skip(1) =~= tail + rest);
        assert(seq![piece[0]] + (tail + text::replace(rest, pattern, with)) =~= piece
            + text::replace(rest, pattern, with));
    }
}

proof fn lemma_replace_meets(rest: Seq<char>, pattern: Seq<char>, with: Seq<char>)
    requires
        pattern.len() > 0,
    ensures
        text::replace(pattern + rest, pattern, with) == with + text::replace(rest, pattern, with),
{
    let whole = pattern + rest;
    assert(whole.take(pattern.len() as int) =~= pattern);
    assert(whole.skip(pattern.len() as int) =~= rest);
}

proof fn lemma_replace_skips_other(
    other: Seq<char>,
    rest: Seq<char>,
    pattern: Seq<char>,
    with: Seq<char>,
)
    requires
        pattern.len() > 1,
        other.len() > 1,
        other[1] != pattern[1],
        forall|i: int| 0 < i < other.len() ==> other[i] != pattern[0],
    ensures
        text::replace(other + rest, pattern, with) == other + text::replace(rest, pattern, with),
{
    let whole = other + rest;
    if text::starts_with(whole, pattern) {
        assert(whole.take(pattern.len() as int)[1] == whole[1]);
    }
    let tail = other.skip(1);
    assert(whole.skip(1) =~= tail + rest);
    lemma_replace_passes(tail, rest, pattern, with);
    assert(seq![other[0]] + (tail + text::replace(rest, pattern, with)) =~= other + text::replace(
        rest,
        pattern,
        with,
    ));
}

proof fn lemma_decimal_has_no_brace(n: nat)
    ensures
        !text::decimal(n).contains('{'),
{
    text::law_decimal_reads_back(n);
}

proof fn lemma_passes_all(piece: Seq<char>, rest: Seq<char>, c: Coordinates)
    requires
        !piece.contains('{'),
    ensures
        substituted(piece + rest, c) == piece + substituted(rest, c),
{
    reveal_strlit("{level}");
    reveal_strlit("{x}");
    reveal_strlit("{y}");
    reveal_strlit("{z}");
    let level = text::decimal(c.level as nat);
    let x = text::decimal(c.x as nat);
    let y = text::decimal(c.y as nat);
    let z = text::decimal(c.z as nat);
    let a = text::replace(rest, "{level}"@, level);
    let b = text::replace(a, "{x}"@, x);
    let d = text::replace(b, "{y}"@, y);
    lemma_replace_passes(piece, rest, "{level}"@, level);
    lemma_replace_passes(piece, a, "{x}"@, x);
    lemma_replace_passes(piece, b, "{y}"@, y);
    lemma_replace_passes(piece, d, "{z}"@, z);
}

proof fn lemma_fills_level(rest: Seq<char>, c: Coordinates)
    ensures
        substituted("{level}"@ + rest, c) == text::decimal(c.level as nat) + substituted(rest, c),
{
    reveal_strlit("{level}");
    reveal_strlit("{x}");
    reveal_strlit("{y}");
    reveal_strlit("{z}");
    let level = text::decimal(c.level as nat);
    let x = text::decimal(c.x as nat);
    let y = text::decimal(c.y as nat);
    let z = text::decimal(c.z as nat);
    let a = text::replace(rest, "{level}"@, level);
    let b = text::replace(a, "{x}"@, x);
    let d = text::replace(b, "{y}"@, y);
    lemma_decimal_has_no_brace(c.level as nat);
    lemma_replace_meets(rest, "{level}"@, level);
    lemma_replace_passes(level, a, "{x}"@, x);
    lemma_replace_passes(level, b, "{y}"@, y);
    lemma_replace_passes(level, d, "{z}"@, z);
}

proof fn lemma_fills_x(rest: Seq<char>, c: Coordinates)
    ensures
        substituted("{x}"@ + rest, c) == text::decimal(c.x as nat) + substituted(rest, c),
{
    reveal_strlit("{level}");
    reveal_strlit("{x}");
    reveal_strlit("{y}");
    reveal_strlit("{z}");
    let level = text::decimal(c.level as nat);
    let x = text::decimal(c.x as nat);
    let y = text::decimal(c.y as nat);
    let z = text::decimal(c.z as nat);
    let a = text::replace(rest, "{level}"@, level);
    let b = text::replace(a, "{x}"@, x);
    let d = text::replace(b, "{y}"@, y);
    lemma_decimal_has_no_brace(c.x as nat);
    lemma_replace_skips_other("{x}"@, rest, "{level}"@, level);
    lemma_replace_meets(a, "{x}"@, x);
    lemma_replace_passes(x, b, "{y}"@, y);
    lemma_replace_passes(x, d, "{z}"@, z);
}

proof fn lemma_fills_y(rest: Seq<char>, c: Coordinates)
    ensures
        substituted("{y}"@ + rest, c) == text::decimal(c.y as nat) + substituted(rest, c),
{
    reveal_strlit("{level}");
    reveal_strlit("{x}");
    reveal_strlit("{y}");
    reveal_strlit("{z}");
    let level = text::decimal(c.level as nat);
    let x = text::decimal(c.x as nat);
    let y = text::decimal(c.y as nat);
    let z = text::decimal(c.z as nat);
    let a = text::replace(rest, "{level}"@, level);
    let b = text::replace(a, "{x}"@, x);
    let d = text::replace(b, "{y}"@, y);
    lemma_decimal_has_no_brace(c.y as nat);
    lemma_replace_skips_other("{y}"@, rest, "{level}"@, level);
    lemma_replace_skips_other("{y}"@, a, "{x}"@, x);
    lemma_replace_meets(b, "{y}"@, y);
    lemma_replace_passes(y, d, "{z}"@, z);
}

proof fn lemma_fills_z(rest: Seq<char>, c: Coordinates)
    ensures
        substituted("{z}"@ + rest, c) == text::decimal(c.z as nat) + substituted(rest, c),
{
    reveal_strlit("{level}");
    reveal_strlit("{x}");
    reveal_strlit("{y}");
    reveal_strlit("{z}");
    let level = text::decimal(c.level as nat);
    let x = text::decimal(c.x as nat);
    let y = text::decimal(c.y as nat);
    let z = text::decimal(c.z as nat);
    let a = text::replace(rest, "{level}"@, level);
    let b = text::replace(a, "{x}"@, x);
    let d = text::replace(b, "{y}"@, y);
    lemma_replace_skips_other("{z}"@, rest, "{level}"@, level);
    lemma_replace_skips_other("{z}"@, a, "{x}"@, x);
    lemma_replace_skips_other("{z}"@, b, "{y}"@, y);
    lemma_replace_meets(d, "{z}"@, z);
}

/// A template is filled from left to right: what holds no brace stays as it is, each
/// variable becomes its number in decimal, wherever and however often it occurs, and the
/// rest is filled alike.
pub proof fn law_templates_are_filled(piece: Seq<char>, rest: Seq<char>, c: Coordinates)
    requires
        !piece.contains('{'),
    ensures
        substituted(piece, c) == piece,
        substituted(piece + "{level}"@ + rest, c) == piece + text::decimal(c.level as nat)
            + substituted(rest, c),
        substituted(piece + "{x}"@ + rest, c) == piece + text::decimal(c.x as nat) + substituted(
            rest,
            c,
        ),
        substituted(piece + "{y}"@ + rest, c) == piece + text::decimal(c.y as nat) + substituted(
            rest,
            c,
        ),
        substituted(piece + "{z}"@ + rest, c) == piece + text::decimal(c.z as nat) + substituted(
            rest,
            c,
        ),
{
    let empty = Seq::<char>::empty();
    assert(piece + empty =~= piece);
    lemma_passes_all(piece, empty, c);
    assert(substituted(empty, c) =~= empty);
    lemma_fills_level(rest, c);
    lemma_fills_x(rest, c);
    lemma_fills_y(rest, c);
    lemma_fills_z(rest, c);
    lemma_passes_all(piece, "{level}"@ + rest, c);
    lemma_passes_all(piece, "{x}"@ + rest, c);
    lemma_passes_all(piece, "{y}"@ + rest, c);
    lemma_passes_all(piece, "{z}"@ + rest, c);
    assert(piece + "{level}"@ + rest =~= piece + ("{level}"@ + rest));
    assert(piece + "{x}"@ + rest =~= piece + ("{x}"@ + rest));
    assert(piece + "{y}"@ + rest =~= piece + ("{y}"@ + rest));
    assert(piece + "{z}"@ + rest =~= piece + ("{z}"@ + rest));
    let more = substituted(rest, c);
    assert(piece + (text::decimal(c.level as nat) + more) =~= piece + text::decimal(
        c.level as nat,
    ) + more);
    assert(piece + (text::decimal(c.x as nat) + more) =~= piece + text::decimal(c.x as nat) + more);
    assert(piece + (text::decimal(c.y as nat) + more) =~= piece + text::decimal(c.y as nat) + more);
    assert(piece + (text::decimal(c.z as nat) + more) =~= piece + text::decimal(c.z as nat) + more);
}

/// Each content has the template at its own position. A single template serves every
/// content, and of several none serves another's.
pub proof fn law_templates_by_position(templates: Seq<Seq<char>>, index: int)
    requires
        0 <= index,
    ensures
        templates.len() == 0 ==> template_for(templates, index) is None,
        templates.len() == 1 ==> template_for(templates, index) == Some(templates[0]),
        index < templates.len() ==> template_for(templates, index) == Some(templates[index]),
        1 < templates.len() <= index ==> template_for(templates, index) is None,
{
}

/// Which declarations are accepted, and what they come to. The scheme has to be known, the
/// number of levels of a subtree between one and what its scheme allows, that of the levels
/// of the tree between one and 31, and the template of the subtree files a text. The levels
/// of the tree are those of `availableLevels`, or else one more than `maximumLevel`.
pub proof fn law_declarations_are_checked(url: UrlParts, source: ImplicitSourceModel)
    ensures
        ({
            let raw = source.raw;
            let name = json::string_of(json::field(raw, "subdivisionScheme"@));
            let quadtree = name == Some("QUADTREE"@);
            let octree = name == Some("OCTREE"@);
            let subtree_levels = json::number_of(json::field(raw, "subtreeLevels"@));
            let available = json::number_of(json::field(raw, "availableLevels"@));
            let maximum = json::number_of(json::field(raw, "maximumLevel"@));
            let levels: int = match (available, maximum) {
                (Some(count), _) => count as int,
                (None, Some(highest)) => highest + 1,
                (None, None) => 0,
            };
            let template = match json::field(raw, "subtrees"@) {
                Some(subtrees) => json::string_of(json::field(subtrees, "uri"@)),
                None => None,
            };
            let in_range = subtree_levels matches Some(n) && 1 <= n && (quadtree && n <= 15
                || octree && n <= 9);
            &&& declared_tiling(url, source) is Ok <==> (quadtree || octree) && in_range && 1
                <= levels <= 31 && template is Some
            &&& declared_tiling(url, source) matches Ok(tiling) ==> {
                &&& tiling.base == url
                &&& quadtree <==> tiling.subdivision == SubdivisionScheme::Quadtree
                &&& Some(tiling.subtree_levels as u64) == subtree_levels
                &&& tiling.available_levels == levels
                &&& Some(tiling.subtree_uri_template) == template
                &&& tiling.content_templates == source.content_templates
            }
            &&& !quadtree && !octree ==> {
                &&& declared_tiling(url, source) matches Err(
                    ErrorModel::UnsupportedSubdivision { url: at, scheme },
                ) && at == url.text && scheme == (match name {
                    Some(text) => text,
                    None => Seq::empty(),
                })
            }
            &&& (quadtree || octree) && declared_tiling(url, source) is Err ==> {
                &&& declared_tiling(url, source) matches Err(
                    ErrorModel::Implicit { url: at, .. },
                ) && at == url.text
            }
        }),
{
    reveal_strlit("QUADTREE");
    reveal_strlit("OCTREE");
    assert("QUADTREE"@.len() != "OCTREE"@.len());
}

/// The indices below `n` whose bit is set, in order.
pub open spec fn set_bits(available: AvailabilityModel, n: nat) -> Seq<int> {
    Seq::new(n, |i: int| i).filter(|i: int| subtree::is_available(available, i))
}

proof fn lemma_set_bits_step(available: AvailabilityModel, n: nat)
    ensures
        set_bits(available, 0).len() == 0,
        set_bits(available, n + 1) == (if subtree::is_available(available, n as int) {
            set_bits(available, n).push(n as int)
        } else {
            set_bits(available, n)
        }),
{
    reveal(Seq::filter);
    let all = Seq::new(n + 1, |i: int| i);
    assert(all.drop_last() =~= Seq::new(n, |i: int| i));
    assert(all.last() == n);
}

/// The indices whose bit is set are found in order, each once, and none is missed.
proof fn lemma_set_bits(available: AvailabilityModel, n: nat)
    ensures
        forall|k: int|
            0 <= k < set_bits(available, n).len() ==> 0 <= #[trigger] set_bits(available, n)[k] < n
                && subtree::is_available(available, set_bits(available, n)[k]),
        forall|i: int|
            0 <= i < n && subtree::is_available(available, i) ==> #[trigger] set_bits(
                available,
                n,
            ).contains(i),
        forall|j: int, k: int|
            0 <= j < k < set_bits(available, n).len() ==> #[trigger] set_bits(available, n)[j]
                < #[trigger] set_bits(available, n)[k],
    decreases n,
{
    if n == 0 {
        lemma_set_bits_step(available, 0);
    } else {
        let m = (n - 1) as nat;
        lemma_set_bits(available, m);
        lemma_set_bits_step(available, m);
        let before = set_bits(available, m);
        let all = set_bits(available, n);
        assert forall|i: int| 0 <= i < n && subtree::is_available(available, i) implies
            #[trigger] all.contains(i) by {
            if i < m {
                assert(before.contains(i));
                let k = choose|k: int| 0 <= k < before.len() && before[k] == i;
                assert(all[k] == i);
            } else {
                assert(all[all.len() - 1] == i);
            }
        }
    }
}

proof fn lemma_children_match_bits(
    tiling: TilingModel,
    root: Coordinates,
    available: AvailabilityModel,
    current: UrlParts,
    template: Option<Seq<char>>,
    n: nat,
)
    requires
        n <= 0x4000_0000,
    ensures
        children_below(tiling, root, available, current, template, n) matches Ok(children) ==> {
            let indices = set_bits(available, n);
            &&& children.len() == indices.len()
            &&& forall|k: int|
                0 <= k < children.len() ==> (#[trigger] children[k]).coordinates == tile_in(
                    tiling.subdivision,
                    root,
                    tiling.subtree_levels,
                    indices[k] as u32,
                ) && child_url(tiling, current, template, children[k].coordinates) == Ok::<
                    UrlParts,
                    ErrorModel,
                >(children[k].url)
        },
        children_below(tiling, root, available, current, template, n) matches Err(error) ==> exists|
            index: u32,
        |
            index < n && subtree::is_available(available, index as int) && #[trigger] child_url(
                tiling,
                current,
                template,
                tile_in(tiling.subdivision, root, tiling.subtree_levels, index),
            ) == Err::<UrlParts, ErrorModel>(error),
    decreases n,
{
    if n == 0 {
        lemma_set_bits_step(available, 0);
    } else {
        let m = (n - 1) as nat;
        lemma_children_match_bits(tiling, root, available, current, template, m);
        lemma_set_bits(available, m);
        lemma_set_bits_step(available, m);
        match children_below(tiling, root, available, current, template, m) {
            Ok(before) => {
                if subtree::is_available(available, m as int) {
                    let index = m as u32;
                    let coordinates = tile_in(
                        tiling.subdivision,
                        root,
                        tiling.subtree_levels,
                        index,
                    );
                    assert(set_bits(available, n)[before.len() as int] == m);
                    assert(child_url(tiling, current, template, coordinates) is Err
                        || child_url(tiling, current, template, coordinates) is Ok);
                }
            },
            Err(error) => {},
        }
    }
}

/// No child subtree is missed: where the tree goes on below a subtree and the children are
/// listed at all, every Morton index of the level below, however large, whose bit is set has
/// a child in the list, with the global coordinates of that index: as many levels below the
/// subtree's root as a subtree has, at the root's place scaled to that level plus the place
/// of the index in it.
pub proof fn law_every_child_is_listed(
    tiling: TilingModel,
    root: Coordinates,
    available: AvailabilityModel,
    current: UrlParts,
    template: Option<Seq<char>>,
    index: u32,
)
    requires
        levels_in_range(tiling),
        within_level(tiling.subdivision, root),
        root.level + tiling.subtree_levels < tiling.available_levels,
        index < power::pow(
            (match tiling.subdivision {
                SubdivisionScheme::Quadtree => 4int,
                SubdivisionScheme::Octree => 8int,
            }),
            tiling.subtree_levels as nat,
        ),
        subtree::is_available(available, index as int),
    ensures
        children_of(tiling, root, available, current, template) matches Ok(children) ==> exists|
            k: int,
        |
            {
                let across = power2::pow2(tiling.subtree_levels as nat);
                let place = local_coordinates(tiling.subdivision, index);
                &&& 0 <= k < children.len()
                &&& (#[trigger] children[k]).coordinates.level == root.level
                    + tiling.subtree_levels
                &&& children[k].coordinates.x == root.x * across + place.0
                &&& children[k].coordinates.y == root.y * across + place.1
                &&& children[k].coordinates.z == root.z * across + place.2
                &&& child_url(tiling, current, template, children[k].coordinates) == Ok::<
                    UrlParts,
                    ErrorModel,
                >(children[k].url)
            },
{
    let n = level_size(tiling.subdivision, tiling.subtree_levels as nat) as nat;
    lemma_level_size(tiling.subdivision, tiling.subtree_levels as nat);
    lemma_children_match_bits(tiling, root, available, current, template, n);
    lemma_set_bits(available, n);
    law_tiles_are_global(tiling.subdivision, root, tiling.subtree_levels, index);
    if let Ok(children) = children_of(tiling, root, available, current, template) {
        let indices = set_bits(available, n);
        assert(indices.contains(index as int));
        let k = choose|k: int| 0 <= k < indices.len() && indices[k] == index;
        assert(children[k].coordinates == tile_in(
            tiling.subdivision,
            root,
            tiling.subtree_levels,
            index,
        ));
    }
}

/// No child subtree is made up: every child in the list comes from a Morton index of the
/// level below whose bit is set, and has the global coordinates of that index and the
/// document that its template leads to. The list is in the order of these indices, without
/// repetition, and empty where the tree does not go on.
pub proof fn law_every_child_comes_from_a_bit(
    tiling: TilingModel,
    root: Coordinates,
    available: AvailabilityModel,
    current: UrlParts,
    template: Option<Seq<char>>,
) -> (indices: Seq<u32>)
    requires
        levels_in_range(tiling),
        within_level(tiling.subdivision, root),
    ensures
        children_of(tiling, root, available, current, template) matches Ok(children) ==> {
            let across = power2::pow2(tiling.subtree_levels as nat);
            &&& indices.len() == children.len()
            &&& root.level + tiling.subtree_levels >= tiling.available_levels ==> children.len()
                == 0
            &&& forall|j: int, k: int|
                0 <= j < k < indices.len() ==> #[trigger] indices[j] < #[trigger] indices[k]
            &&& forall|k: int|
                0 <= k < children.len() ==> {
                    let place = local_coordinates(tiling.subdivision, #[trigger] indices[k]);
                    let child = children[k].coordinates;
                    &&& subtree::is_available(available, indices[k] as int)
                    &&& indices[k] < power::pow(
                        (match tiling.subdivision {
                            SubdivisionScheme::Quadtree => 4int,
                            SubdivisionScheme::Octree => 8int,
                        }),
                        tiling.subtree_levels as nat,
                    )
                    &&& child.level == root.level + tiling.subtree_levels
                    &&& child.x == root.x * across + place.0
                    &&& child.y == root.y * across + place.1
                    &&& child.z == root.z * across + place.2
                    &&& child_url(tiling, current, template, child) == Ok::<UrlParts, ErrorModel>(
                        children[k].url,
                    )
                }
        },
        children_of(tiling, root, available, current, template) matches Err(error) ==> exists|
            index: u32,
        |
            subtree::is_available(available, index as int) && #[trigger] child_url(
                tiling,
                current,
                template,
                tile_in(tiling.subdivision, root, tiling.subtree_levels, index),
            ) == Err::<UrlParts, ErrorModel>(error),
{
    if root.level + tiling.subtree_levels >= tiling.available_levels {
        Seq::empty()
    } else {
        let n = level_size(tiling.subdivision, tiling.subtree_levels as nat) as nat;
        lemma_level_size(tiling.subdivision, tiling.subtree_levels as nat);
        lemma_children_match_bits(tiling, root, available, current, template, n);
        lemma_set_bits(available, n);
        let found = set_bits(available, n);
        let indices = Seq::new(found.len(), |k: int| found[k] as u32);
        assert forall|k: int| 0 <= k < indices.len() implies found[k] == #[trigger] indices[k]
            && indices[k] < n by {
            assert(0 <= found[k] < n);
        }
        if let Ok(children) = children_of(tiling, root, available, current, template) {
            assert forall|k: int| 0 <= k < children.len() implies {
                let across = power2::pow2(tiling.subtree_levels as nat);
                let place = local_coordinates(tiling.subdivision, #[trigger] indices[k]);
                let child = children[k].coordinates;
                &&& child.level == root.level + tiling.subtree_levels
                &&& child.x == root.x * across + place.0
                &&& child.y == root.y * across + place.1
                &&& child.z == root.z * across + place.2
            } by {
                law_tiles_are_global(
                    tiling.subdivision,
                    root,
                    tiling.subtree_levels,
                    indices[k],
                );
                assert(children[k].coordinates == tile_in(
                    tiling.subdivision,
                    root,
                    tiling.subtree_levels,
                    indices[k],
                ));
            }
        }
        indices
    }
}

/// The document of a child subtree is where the subtree's own template leads from the
/// subtree's document, or else where the tileset's leads from the tileset's.
pub proof fn law_child_documents_are_resolved(
    tiling: TilingModel,
    current: UrlParts,
    template: Option<Seq<char>>,
    child: Coordinates,
)
    ensures
        match template {
            Some(own) => child_url(tiling, current, template, child) == web_url::join_outcome(
                current,
                substituted(own, child),
            ),
            None => child_url(tiling, current, template, child) == web_url::join_outcome(
                tiling.base,
                substituted(tiling.subtree_uri_template, child),
            ),
        },
{
}

/// The references of a level are those of its tiles, tile by tile in Morton order; a tile
/// that does not exist has none, and of one that does each content that is available and
/// has a template gives one, in the order of the contents.
pub proof fn law_level_is_walked_in_order(s: SubtreeContent, level: u32, n: nat)
    requires
        n <= 0x4000_0000,
    ensures
        level_references(s, level, n) == Seq::new(
            n,
            |m: int|
                if subtree::is_available(s.tiles, tile_index(s.scheme, level as nat, m)) {
                    tile_references(
                        tile_in(s.scheme, s.root, level, m as u32),
                        tile_index(s.scheme, level as nat, m),
                        s.contents,
                        s.templates,
                    )
                } else {
                    Seq::empty()
                },
        ).flatten_alt(),
    decreases n,
{
    let all = Seq::new(
        n,
        |m: int|
            if subtree::is_available(s.tiles, tile_index(s.scheme, level as nat, m)) {
                tile_references(
                    tile_in(s.scheme, s.root, level, m as u32),
                    tile_index(s.scheme, level as nat, m),
                    s.contents,
                    s.templates,
                )
            } else {
                Seq::empty()
            },
    );
    if n > 0 {
        law_level_is_walked_in_order(s, level, (n - 1) as nat);
        assert(all.drop_last() =~= Seq::new(
            (n - 1) as nat,
            |m: int|
                if subtree::is_available(s.tiles, tile_index(s.scheme, level as nat, m)) {
                    tile_references(
                        tile_in(s.scheme, s.root, level, m as u32),
                        tile_index(s.scheme, level as nat, m),
                        s.contents,
                        s.templates,
                    )
                } else {
                    Seq::empty()
                },
        ));
    }
}

/// What one tile references: a reference for each of its contents that is available and
/// has a template, and nothing for the others, in the order of the contents.
pub proof fn law_tile_references_its_contents(
    tile: Coordinates,
    bit: int,
    contents: Seq<AvailabilityModel>,
    templates: Seq<Seq<char>>,
)
    requires
        contents.len() > 0,
    ensures
        ({
            let k = contents.len() - 1;
            let before = tile_references(tile, bit, contents.drop_last(), templates);
            tile_references(tile, bit, contents, templates) == (match template_for(templates, k) {
                Some(template) => if subtree::is_available(contents[k], bit) {
                    before.push(substituted(template, tile))
                } else {
                    before
                },
                None => before,
            })
        }),
        tile_references(tile, bit, Seq::empty(), templates).len() == 0,
{
    let list = Seq::new(
        contents.len(),
        |k: int| content_reference(tile, bit, contents[k], template_for(templates, k)),
    );
    let front = contents.drop_last();
    assert(list.drop_last() =~= Seq::new(
        front.len(),
        |k: int| content_reference(tile, bit, front[k], template_for(templates, k)),
    ));
}

/// The references of a subtree are those of its levels, level by level from the root on,
/// and levels below the last of the tree have none.
pub proof fn law_subtree_is_walked_in_order(s: SubtreeContent, levels: nat)
    requires
        levels <= 15,
    ensures
        subtree_references(s, levels) == Seq::new(
            levels,
            |level: int|
                if s.root.level + level < s.available_levels {
                    level_references(
                        s,
                        level as u32,
                        level_size(s.scheme, level as nat) as nat,
                    )
                } else {
                    Seq::empty()
                },
        ).flatten_alt(),
    decreases levels,
{
    let all = Seq::new(
        levels,
        |level: int|
            if s.root.level + level < s.available_levels {
                level_references(s, level as u32, level_size(s.scheme, level as nat) as nat)
            } else {
                Seq::empty()
            },
    );
    if levels > 0 {
        law_subtree_is_walked_in_order(s, (levels - 1) as nat);
        assert(all.drop_last() =~= Seq::new(
            (levels - 1) as nat,
            |level: int|
                if s.root.level + level < s.available_levels {
                    level_references(s, level as u32, level_size(s.scheme, level as nat) as nat)
                } else {
                    Seq::empty()
                },
        ));
    }
}

/// Every tile that exists is counted once, in the levels that the tree has.
pub proof fn law_existing_tiles_are_counted(s: SubtreeContent, level: u32, n: nat)
    ensures
        level_tiles(s, level, n) == Seq::new(n, |m: int| m).filter(
            |m: int| subtree::is_available(s.tiles, tile_index(s.scheme, level as nat, m)),
        ).len(),
        subtree_tiles(s, 0) == 0,
        level < u32::MAX ==> subtree_tiles(s, (level + 1) as nat) == subtree_tiles(s, level as nat)
            + (if s.root.level + level < s.available_levels {
            level_tiles(s, level, level_size(s.scheme, level as nat) as nat)
        } else {
            0
        }),
    decreases n,
{
    reveal(Seq::filter);
    let pred = |m: int| subtree::is_available(s.tiles, tile_index(s.scheme, level as nat, m));
    let all = Seq::new(n, |m: int| m);
    if n > 0 {
        law_existing_tiles_are_counted(s, level, (n - 1) as nat);
        assert(all.drop_last() =~= Seq::new((n - 1) as nat, |m: int| m));
        assert(all.last() == n - 1);
    }
}

/// Every reference is resolved or reported, each on its own account and in order: one that
/// resolves gives its URL, and one that does not is kept as it was written.
pub proof fn law_references_resolve_or_are_reported(
    base: UrlParts,
    a: Seq<Seq<char>>,
    b: Seq<Seq<char>>,
    reference: Seq<char>,
)
    ensures
        resolved(base, a + b) == resolved(base, a) + resolved(base, b),
        unresolved(base, a + b) == unresolved(base, a) + unresolved(base, b),
        match web_url::join_outcome(base, reference) {
            Ok(url) => resolved(base, seq![reference]) == seq![url] && unresolved(
                base,
                seq![reference],
            ).len() == 0,
            Err(_) => resolved(base, seq![reference]).len() == 0 && unresolved(
                base,
                seq![reference],
            ) == seq![reference],
        },
    decreases b.len(),
{
    if b.len() == 0 {
        assert(a + b =~= a);
        assert(resolved(base, a) + resolved(base, b) =~= resolved(base, a));
        assert(unresolved(base, a) + unresolved(base, b) =~= unresolved(base, a));
    } else {
        law_references_resolve_or_are_reported(base, a, b.drop_last(), reference);
        assert((a + b).drop_last() =~= a + b.drop_last());
        assert((a + b).last() == b.last());
        assert(resolved(base, a + b) =~= resolved(base, a) + resolved(base, b));
        assert(unresolved(base, a + b) =~= unresolved(base, a) + unresolved(base, b));
    }
    let one = seq![reference];
    assert(one.drop_last() =~= Seq::<Seq<char>>::empty());
    assert(resolved(base, one.drop_last()) =~= Seq::<UrlParts>::empty());
    assert(unresolved(base, one.drop_last()) =~= Seq::<Seq<char>>::empty());
    match web_url::join_outcome(base, reference) {
        Ok(url) => {
            assert(resolved(base, one) =~= seq![url]);
        },
        Err(_) => {
            assert(unresolved(base, one) =~= seq![reference]);
        },
    }
}

/// Every content availability is read, in order, each under its own name, and one that is
/// malformed fails them all: the first of these gives the error.
pub proof fn law_contents_are_all_or_none(
    entries: Seq<JsonModel>,
    bits: nat,
    views: Seq<Seq<u8>>,
    url: UrlParts,
    n: nat,
)
    requires
        n <= entries.len(),
    ensures
        contents_read(entries, bits, views, url, n) matches Ok(read) ==> read.len() == n && forall|
            i: int,
        |
            0 <= i < n ==> subtree::availability_of(
                entries[i],
                bits,
                views,
                url,
                "contentAvailability["@ + text::decimal(i as nat) + "]"@,
            ) == Ok::<AvailabilityModel, ErrorModel>(#[trigger] read[i]),
        contents_read(entries, bits, views, url, n) matches Err(error) ==> exists|k: int|
            {
                &&& 0 <= k < n
                &&& subtree::availability_of(
                    #[trigger] entries[k],
                    bits,
                    views,
                    url,
                    "contentAvailability["@ + text::decimal(k as nat) + "]"@,
                ) == Err::<AvailabilityModel, ErrorModel>(error)
                &&& contents_read(entries, bits, views, url, k as nat) is Ok
            },
    decreases n,
{
    if n > 0 {
        let m = (n - 1) as nat;
        law_contents_are_all_or_none(entries, bits, views, url, m);
        match contents_read(entries, bits, views, url, m) {
            Ok(read) => {
                assert(entries[m as int] == entries[n - 1]);
            },
            Err(error) => {
                let k = choose|k: int|
                    {
                        &&& 0 <= k < m
                        &&& subtree::availability_of(
                            #[trigger] entries[k],
                            bits,
                            views,
                            url,
                            "contentAvailability["@ + text::decimal(k as nat) + "]"@,
                        ) == Err::<AvailabilityModel, ErrorModel>(error)
                        &&& contents_read(entries, bits, views, url, k as nat) is Ok
                    };
                assert(entries[k] == entries[k]);
            },
        }
    }
}

/// The subtree's own content template replaces all those of the tileset.
pub proof fn law_own_template_wins(tiling: TilingModel, document: SubtreeModel)
    ensures
        document.content_uri is None ==> templates_of(tiling, document) == tiling.content_templates,
        document.content_uri matches Some(uri) ==> templates_of(tiling, document).len() == 1
            && templates_of(tiling, document)[0] == uri,
{
}

/// What an expanded subtree is made of. Its bits are read from the views of its document: as
/// many for the tiles and for each content as the subtree has tiles, and as many for the
/// children as the level below has. The contents are resolved against the tileset's
/// document, the children against the subtree's where it has a template of its own, and the
/// buffers that were fetched are those that were loaded.
pub proof fn law_expansion_follows_the_document(
    tiling: TilingModel,
    root: Coordinates,
    url: UrlParts,
    document: SubtreeModel,
    loaded: LoadedModel,
)
    ensures
        expansion(tiling, root, url, document, loaded) matches Ok(found) ==> {
            let headers = document.buffer_views;
            let tile_count = tile_index(tiling.subdivision, tiling.subtree_levels as nat, 0);
            let child_count = level_size(tiling.subdivision, tiling.subtree_levels as nat);
            &&& subtree_bits(tiling, url, document, loaded.buffers) matches Ok(bits)
            &&& subtree::views_of(headers, loaded.buffers, url, headers.len()) matches Ok(views)
            &&& subtree::availability_of(
                document.tile_availability,
                tile_count as nat,
                views,
                url,
                "tileAvailability"@,
            ) == Ok::<AvailabilityModel, ErrorModel>(bits.tiles)
            &&& subtree::availability_of(
                document.child_subtree_availability,
                child_count as nat,
                views,
                url,
                "childSubtreeAvailability"@,
            ) == Ok::<AvailabilityModel, ErrorModel>(bits.children)
            &&& match subtree::content_entries(document) {
                Some(entries) => contents_read(
                    entries,
                    tile_count as nat,
                    views,
                    url,
                    entries.len(),
                ) == Ok::<Seq<AvailabilityModel>, ErrorModel>(bits.contents),
                None => bits.contents == seq![bits.tiles],
            }
            &&& found.assumed_content <==> subtree::content_entries(document) is None
            &&& found.external_buffers == loaded.external
            &&& children_of(tiling, root, bits.children, url, document.subtree_uri) == Ok::<
                Seq<ChildModel>,
                ErrorModel,
            >(found.child_subtrees)
            &&& {
                let s = SubtreeContent {
                    scheme: tiling.subdivision,
                    available_levels: tiling.available_levels,
                    root,
                    tiles: bits.tiles,
                    contents: bits.contents,
                    templates: templates_of(tiling, document),
                };
                let references = subtree_references(s, tiling.subtree_levels as nat);
                &&& found.content_urls == resolved(tiling.base, references)
                &&& found.unresolved == unresolved(tiling.base, references)
                &&& found.content_urls.len() + found.unresolved.len() == references.len()
            }
        },
{
    if let Ok(bits) = subtree_bits(tiling, url, document, loaded.buffers) {
        let s = content_to_walk(tiling, root, document, bits);
        lemma_resolved_lengths(tiling.base, subtree_references(s, tiling.subtree_levels as nat));
    }
}

proof fn lemma_resolved_lengths(base: UrlParts, references: Seq<Seq<char>>)
    ensures
        resolved(base, references).len() + unresolved(base, references).len() == references.len(),
    decreases references.len(),
{
    if references.len() > 0 {
        lemma_resolved_lengths(base, references.drop_last());
    }
}

/// What is no variable is no concern of a template's: a text in which none of the four
/// variables stands is left as it is, braces and all.
pub proof fn law_other_braces_are_left_alone(template: Seq<char>, c: Coordinates)
    requires
        forall|i: int| 0 <= i < template.len() ==> !#[trigger] text::occurs_at(
            template,
            "{level}"@,
            i,
        ),
        forall|i: int| 0 <= i < template.len() ==> !#[trigger] text::occurs_at(
            template,
            "{x}"@,
            i,
        ),
        forall|i: int| 0 <= i < template.len() ==> !#[trigger] text::occurs_at(
            template,
            "{y}"@,
            i,
        ),
        forall|i: int| 0 <= i < template.len() ==> !#[trigger] text::occurs_at(
            template,
            "{z}"@,
            i,
        ),
    ensures
        substituted(template, c) == template,
{
    reveal_strlit("{level}");
    reveal_strlit("{x}");
    reveal_strlit("{y}");
    reveal_strlit("{z}");
    let n = template.len() as int;
    text::law_replace_changes_occurrences(template, "{level}"@, text::decimal(c.level as nat), n);
    text::law_replace_changes_occurrences(template, "{x}"@, text::decimal(c.x as nat), n);
    text::law_replace_changes_occurrences(template, "{y}"@, text::decimal(c.y as nat), n);
    text::law_replace_changes_occurrences(template, "{z}"@, text::decimal(c.z as nat), n);
}

/// The Morton index of a tile leads back to the tile, as far as its level can be addressed.
pub proof fn law_morton_index_leads_back(c: Coordinates)
    ensures
        c.x < 0x1_0000 && c.y < 0x1_0000 ==> local_coordinates(
            SubdivisionScheme::Quadtree,
            morton_index(c, SubdivisionScheme::Quadtree),
        ) == (c.x, c.y, 0u64),
        c.x < 0x400 && c.y < 0x400 && c.z < 0x400 ==> local_coordinates(
            SubdivisionScheme::Octree,
            morton_index(c, SubdivisionScheme::Octree),
        ) == (c.x, c.y, c.z),
{
    if c.x < 0x1_0000 && c.y < 0x1_0000 {
        morton::law_round_trip_2d(c.x as u32, c.y as u32);
    }
    if c.x < 0x400 && c.y < 0x400 && c.z < 0x400 {
        morton::law_round_trip_3d(c.x as u32, c.y as u32, c.z as u32);
    }
}

/// The child subtrees of any subtree are those of the set bits, one for one and in order,
/// wherever the subtree's root lies, as long as the tree goes on.
pub proof fn law_children_follow_the_bits(
    tiling: TilingModel,
    root: Coordinates,
    available: AvailabilityModel,
    current: UrlParts,
    template: Option<Seq<char>>,
)
    requires
        levels_in_range(tiling),
    ensures
        root.level + tiling.subtree_levels >= tiling.available_levels ==> children_of(
            tiling,
            root,
            available,
            current,
            template,
        ) == Ok::<Seq<ChildModel>, ErrorModel>(Seq::empty()),
        root.level + tiling.subtree_levels < tiling.available_levels ==> (children_of(
            tiling,
            root,
            available,
            current,
            template,
        ) matches Ok(children) ==> {
            let indices = Seq::new(child_bits(tiling), |i: int| i).filter(
                |i: int| subtree::is_available(available, i),
            );
            &&& children.len() == indices.len()
            &&& forall|k: int|
                0 <= k < children.len() ==> (#[trigger] children[k]).coordinates == tile_in(
                    tiling.subdivision,
                    root,
                    tiling.subtree_levels,
                    indices[k] as u32,
                )
        }),
{
    let n = level_size(tiling.subdivision, tiling.subtree_levels as nat) as nat;
    lemma_level_size(tiling.subdivision, tiling.subtree_levels as nat);
    lemma_children_match_bits(tiling, root, available, current, template, n);
    assert(set_bits(available, n) == Seq::new(child_bits(tiling), |i: int| i).filter(
        |i: int| subtree::is_available(available, i),
    ));
}

/// A refused declaration is told what is wrong with it: the number that is out of range, and
/// the range.
pub proof fn law_declaration_errors_give_the_numbers(url: UrlParts, source: ImplicitSourceModel)
    ensures
        ({
            let raw = source.raw;
            let name = json::string_of(json::field(raw, "subdivisionScheme"@));
            let known = name == Some("QUADTREE"@) || name == Some("OCTREE"@);
            let most: nat = if name == Some("OCTREE"@) {
                9
            } else {
                15
            };
            let subtree_levels = json::number_of(json::field(raw, "subtreeLevels"@));
            let available = json::number_of(json::field(raw, "availableLevels"@));
            let maximum = json::number_of(json::field(raw, "maximumLevel"@));
            &&& known && subtree_levels is None ==> declared_tiling(url, source) == Err::<
                TilingModel,
                ErrorModel,
            >(ErrorModel::Implicit { url: url.text, detail: "`subtreeLevels` is missing"@ })
            &&& known ==> (subtree_levels matches Some(n) ==> {
                &&& n == 0 || n > most ==> declared_tiling(url, source) == Err::<
                    TilingModel,
                    ErrorModel,
                >(
                    ErrorModel::Implicit {
                        url: url.text,
                        detail: "`subtreeLevels` is "@ + text::decimal(n as nat)
                            + ", outside the supported range 1..="@ + text::decimal(most),
                    },
                )
                &&& 1 <= n <= most ==> (available matches Some(levels) ==> levels == 0 || levels
                    > 31 ==> declared_tiling(url, source) == Err::<TilingModel, ErrorModel>(
                    ErrorModel::Implicit {
                        url: url.text,
                        detail: "`availableLevels` is "@ + text::decimal(levels as nat)
                            + ", expected 1..=31"@,
                    },
                ))
                &&& 1 <= n <= most && available is None && maximum is None ==> declared_tiling(
                    url,
                    source,
                ) == Err::<TilingModel, ErrorModel>(
                    ErrorModel::Implicit {
                        url: url.text,
                        detail: "neither `availableLevels` nor `maximumLevel` is present"@,
                    },
                )
                &&& 1 <= n <= most ==> (available matches Some(levels) ==> 1 <= levels <= 31
                    && json::field(raw, "subtrees"@) is None ==> declared_tiling(url, source)
                    == Err::<TilingModel, ErrorModel>(
                    ErrorModel::Implicit { url: url.text, detail: "`subtrees.uri` is missing"@ },
                ))
            })
        }),
{
    reveal_strlit("QUADTREE");
    reveal_strlit("OCTREE");
    assert("QUADTREE"@.len() != "OCTREE"@.len());
}

/// Whatever the branching, a level starts where the level above ends: the tiles above it are
/// those above that level and those of that level.
pub proof fn law_offsets_add_up(branching: int, level: nat)
    requires
        branching > 1,
    ensures
        tiles_above(branching, 0) == 0,
        tiles_above(branching, level + 1) == tiles_above(branching, level) + power::pow(
            branching,
            level,
        ),
{
    let size = power::pow(branching, level);
    power::lemma_pow0(branching);
    power::lemma_pow1(branching);
    power::lemma_pow_adds(branching, 1, level);
    vstd::arithmetic::div_mod::lemma_hoist_over_denominator(
        size - 1,
        size,
        (branching - 1) as nat,
    );
    assert((size - 1) + size * (branching - 1) == branching * size - 1) by (nonlinear_arith);
}

/// A subtree is expanded exactly where its document can be read and its children resolve:
/// where its views can be cut, where the bits of its tiles, of its contents and of its
/// children can be read, and where every child has a document. Any other has the error of the
/// first of these that fails. An expanded subtree counts the tiles that exist.
pub proof fn law_readable_subtrees_are_expanded(
    tiling: TilingModel,
    root: Coordinates,
    url: UrlParts,
    document: SubtreeModel,
    loaded: LoadedModel,
)
    requires
        levels_in_range(tiling),
    ensures
        ({
            let result = expansion(tiling, root, url, document, loaded);
            let headers = document.buffer_views;
            let tile_count = tile_index(tiling.subdivision, tiling.subtree_levels as nat, 0) as nat;
            let child_count = level_size(tiling.subdivision, tiling.subtree_levels as nat) as nat;
            match subtree::views_of(headers, loaded.buffers, url, headers.len()) {
                Err(error) => result == Err::<ExpansionModel, ErrorModel>(error),
                Ok(views) => {
                    let tiles = subtree::availability_of(
                        document.tile_availability,
                        tile_count,
                        views,
                        url,
                        "tileAvailability"@,
                    );
                    let entries = subtree::content_entries(document);
                    let contents = match entries {
                        Some(list) => contents_read(list, tile_count, views, url, list.len()),
                        None => Ok(seq![tiles->Ok_0]),
                    };
                    let children = subtree::availability_of(
                        document.child_subtree_availability,
                        child_count,
                        views,
                        url,
                        "childSubtreeAvailability"@,
                    );
                    if tiles is Err {
                        result == Err::<ExpansionModel, ErrorModel>(tiles->Err_0)
                    } else if contents is Err {
                        result == Err::<ExpansionModel, ErrorModel>(contents->Err_0)
                    } else if children is Err {
                        result == Err::<ExpansionModel, ErrorModel>(children->Err_0)
                    } else {
                        let found = children_of(
                            tiling,
                            root,
                            children->Ok_0,
                            url,
                            document.subtree_uri,
                        );
                        &&& result is Ok <==> found is Ok
                        &&& found matches Err(error) ==> result == Err::<
                            ExpansionModel,
                            ErrorModel,
                        >(error)
                        &&& result matches Ok(expanded) ==> expanded.available_tiles
                            == subtree_tiles(
                            SubtreeContent {
                                scheme: tiling.subdivision,
                                available_levels: tiling.available_levels,
                                root,
                                tiles: tiles->Ok_0,
                                contents: contents->Ok_0,
                                templates: templates_of(tiling, document),
                            },
                            tiling.subtree_levels as nat,
                        )
                    }
                },
            }
        }),
{
    if let Ok(bits) = subtree_bits(tiling, url, document, loaded.buffers) {
        let s = content_to_walk(tiling, root, document, bits);
        lemma_subtree_tiles(s, tiling.subtree_levels as nat);
        lemma_tiles_above(tiling.subdivision, tiling.subtree_levels as nat);
        lemma_level_size(tiling.subdivision, tiling.subtree_levels as nat);
    }
}

} // verus!
