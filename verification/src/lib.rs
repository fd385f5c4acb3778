//! Planning and decoding for mirroring a complete
//! [3D Tiles](https://github.com/CesiumGS/3d-tiles) tileset from a URL to a local
//! directory, with every decision stated and proved.
//!
//! A mirror is made in two phases:
//!
//! 1. **Discovery** walks the tile tree of the root `tileset.json`, follows external
//!    tilesets, expands implicit tiling subtrees, and produces the complete list of
//!    [`DownloadItem`]s (URL plus the local path it should be written to). A
//!    [`Crawl`] decides what to fetch next and what follows from it.
//! 2. **Download** fetches every item and writes it atomically. A
//!    [`download::FileTask`] decides what to do next for one file, and
//!    [`download::summarize`] what a whole run came to.
//!
//! The library reads and writes nothing itself: whoever drives it performs the
//! fetches and the file operations, and hands back what came of them.

pub mod cli;
pub mod collector;
pub mod discovery;
pub mod download;
pub mod error;
pub mod implicit;
pub mod json;
pub mod local_path;
pub mod mirror;
pub mod morton;
pub mod net;
pub mod order;
pub mod path_util;
pub mod plan;
pub mod subtree;
pub mod text;
pub mod tileset;
pub mod web_url;

pub use crate::discovery::{Crawl, Discovery, DownloadItem, ItemKind};
pub use crate::download::{DownloadOptions, Summary};
pub use crate::error::{format_chain, Error, Result};
pub use crate::implicit::{Coordinates, ImplicitTiling, SubdivisionScheme, SubtreeExpansion};
pub use crate::net::ClientConfig;
pub use crate::tileset::Tileset;
pub use crate::web_url::Url;
