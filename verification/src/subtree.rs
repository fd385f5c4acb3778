//! Subtree documents: the container they come in, the buffers they use, and the
//! availability bitstreams they hold.
//!
//! A subtree document is a JSON document, or a GLB-like binary with a `subt`
//! magic, a JSON chunk, and an internal binary chunk that the JSON's
//! `bufferViews` index into. Availability bits are packed least-significant bit
//! first: bit `i` is bit `i % 8` of byte `i / 8`. This is the single most
//! important detail here; get it backwards and every tile is silently wrong.

use vstd::arithmetic::power2;
use vstd::prelude::*;
use vstd::slice::slice_subrange;

use crate::error;
use crate::error::{Error, ErrorModel, Result};
use crate::json;
use crate::json::{Json, JsonModel};
use crate::text;
use crate::tileset::MULTIPLE_CONTENTS_EXTENSION;
use crate::web_url;
use crate::web_url::{Url, UrlParts};

verus! {

/// `magic(4) + version(4) + jsonByteLength(8) + binaryByteLength(8)`.
pub const SUBTREE_HEADER_LEN: usize = 24;

/// Magic prefix of a binary subtree document: `subt`.
pub open spec fn subtree_magic() -> Seq<u8> {
    seq![0x73u8, 0x75u8, 0x62u8, 0x74u8]
}

/// The number that the four bytes from `at` hold, the least significant first.
pub open spec fn little_endian(bytes: Seq<u8>, at: int) -> nat {
    (bytes[at] + bytes[at + 1] * 0x100 + bytes[at + 2] * 0x1_0000 + bytes[at + 3]
        * 0x100_0000) as nat
}

/// A structural defect of a subtree document.
pub open spec fn defect(url: UrlParts, detail: Seq<char>) -> ErrorModel {
    ErrorModel::Availability { url: url.text, detail }
}

/// The JSON chunk and the binary chunk of a subtree document.
///
/// Spec subtrees are either plain JSON or the binary container; the magic tells
/// them apart. The chunk lengths are `uint64` in the container, but only the low
/// 32 bits are read: anything larger does not fit in memory anyway.
pub open spec fn chunks(bytes: Seq<u8>, url: UrlParts) -> core::result::Result<
    (Seq<u8>, Seq<u8>),
    ErrorModel,
> {
    if bytes.len() < 4 || bytes.take(4) != subtree_magic() {
        Ok((bytes, Seq::empty()))
    } else if bytes.len() < SUBTREE_HEADER_LEN {
        Err(
            defect(
                url,
                "binary subtree is "@ + text::decimal(bytes.len())
                    + " bytes, shorter than the 24-byte header"@,
            ),
        )
    } else {
        let json_end = SUBTREE_HEADER_LEN + little_endian(bytes, 8);
        let binary_end = json_end + little_endian(bytes, 16);
        if json_end > usize::MAX {
            Err(defect(url, "jsonByteLength overflows"@))
        } else if binary_end > usize::MAX {
            Err(defect(url, "binaryByteLength overflows"@))
        } else if binary_end > bytes.len() {
            Err(
                defect(
                    url,
                    "header claims "@ + text::decimal(binary_end as nat)
                        + " bytes but the document is "@ + text::decimal(bytes.len()) + " bytes"@,
                ),
            )
        } else {
            Ok(
                (
                    bytes.subrange(SUBTREE_HEADER_LEN as int, json_end),
                    bytes.subrange(json_end, binary_end),
                ),
            )
        }
    }
}

/// What a result of two slices stands for.
pub open spec fn chunks_outcome(result: Result<(&[u8], &[u8])>) -> core::result::Result<
    (Seq<u8>, Seq<u8>),
    ErrorModel,
> {
    match result {
        Ok(pair) => Ok((pair.0@, pair.1@)),
        Err(error) => Err(error@),
    }
}

fn malformed(url: &Url, detail: &str) -> (error: Error)
    ensures
        error@ == defect(url@, detail@),
{
    Error::Availability { url: url.as_str().to_owned(), detail: detail.to_owned() }
}

fn read_little_endian(bytes: &[u8], at: usize) -> (value: u32)
    requires
        at + 4 <= bytes@.len(),
    ensures
        value == little_endian(bytes@, at as int),
{
    bytes[at] as u32 + bytes[at + 1] as u32 * 0x100 + bytes[at + 2] as u32 * 0x1_0000 + bytes[at
        + 3] as u32 * 0x100_0000
}

/// Splits a subtree document into its JSON and binary chunks.
pub fn split_subtree_document<'a>(bytes: &'a [u8], url: &Url) -> (out: Result<
    (&'a [u8], &'a [u8]),
>)
    ensures
        chunks_outcome(out) == chunks(bytes@, url@),
{
    let container = bytes.len() >= 4 && bytes[0] == 0x73 && bytes[1] == 0x75 && bytes[2] == 0x62
        && bytes[3] == 0x74;
    proof {
        if bytes@.len() >= 4 {
            if container {
                assert(bytes@.take(4) =~= subtree_magic());
            } else {
                assert(bytes@.take(4)[0] == bytes@[0] && bytes@.take(4)[1] == bytes@[1]
                    && bytes@.take(4)[2] == bytes@[2] && bytes@.take(4)[3] == bytes@[3]);
            }
        }
    }
    if !container {
        let rest = slice_subrange(bytes, bytes.len(), bytes.len());
        assert(rest@ =~= Seq::<u8>::empty());
        return Ok((bytes, rest));
    }
    if bytes.len() < SUBTREE_HEADER_LEN {
        let mut detail = "binary subtree is ".to_owned();
        detail.append(text::decimal_text(bytes.len() as u64).as_str());
        detail.append(" bytes, shorter than the 24-byte header");
        return Err(malformed(url, detail.as_str()));
    }
    let json_length = read_little_endian(bytes, 8) as usize;
    let binary_length = read_little_endian(bytes, 16) as usize;
    let json_end = match SUBTREE_HEADER_LEN.checked_add(json_length) {
        Some(end) => end,
        None => {
            return Err(malformed(url, "jsonByteLength overflows"));
        },
    };
    let binary_end = match json_end.checked_add(binary_length) {
        Some(end) => end,
        None => {
            return Err(malformed(url, "binaryByteLength overflows"));
        },
    };
    if binary_end > bytes.len() {
        let mut detail = "header claims ".to_owned();
        detail.append(text::decimal_text(binary_end as u64).as_str());
        detail.append(" bytes but the document is ");
        detail.append(text::decimal_text(bytes.len() as u64).as_str());
        detail.append(" bytes");
        return Err(malformed(url, detail.as_str()));
    }
    Ok(
        (
            slice_subrange(bytes, SUBTREE_HEADER_LEN, json_end),
            slice_subrange(bytes, json_end, binary_end),
        ),
    )
}

/// What was put into a container is read back: a header that gives the lengths of
/// the two chunks behind it splits into these chunks.
pub proof fn law_container_round_trip(
    header: Seq<u8>,
    json: Seq<u8>,
    binary: Seq<u8>,
    url: UrlParts,
)
    requires
        header.len() == SUBTREE_HEADER_LEN,
        header.take(4) == subtree_magic(),
        little_endian(header, 8) == json.len(),
        little_endian(header, 16) == binary.len(),
        header.len() + json.len() + binary.len() <= usize::MAX,
    ensures
        chunks(header + json + binary, url) == Ok::<(Seq<u8>, Seq<u8>), ErrorModel>((json, binary)),
{
    let bytes = header + json + binary;
    assert(bytes.take(4) =~= header.take(4));
    assert(little_endian(bytes, 8) == little_endian(header, 8));
    assert(little_endian(bytes, 16) == little_endian(header, 16));
    let json_end = SUBTREE_HEADER_LEN + json.len();
    assert(bytes.subrange(SUBTREE_HEADER_LEN as int, json_end as int) =~= json);
    assert(bytes.subrange(json_end as int, json_end + binary.len()) =~= binary);
}

/// The JSON chunk of a subtree document.
#[derive(Debug)]
pub struct SubtreeDocument {
    /// The buffers that the views cut from.
    pub buffers: Vec<BufferHeader>,
    /// The views that availability refers to.
    pub buffer_views: Vec<BufferViewHeader>,
    /// Which tiles exist; null where the document does not say.
    pub tile_availability: Json,
    /// Which tiles have content, one entry per content.
    pub content_availability: Option<Vec<Json>>,
    /// Which child subtrees exist.
    pub child_subtree_availability: Json,
    /// 3D Tiles 1.0 draft: overrides the tileset's content template.
    pub content_uri: Option<String>,
    /// 3D Tiles 1.0 draft: overrides the tileset's subtree template.
    pub subtree_uri: Option<String>,
    /// Raw extensions, of which one is understood.
    pub extensions: Option<Vec<(String, Json)>>,
}

/// One buffer of a subtree document.
#[derive(Debug)]
pub struct BufferHeader {
    /// Where the buffer is, unless it is the document's own binary chunk.
    pub uri: Option<String>,
}

/// One view of a subtree document: a range of one of its buffers.
#[derive(Debug, Clone, Copy)]
pub struct BufferViewHeader {
    /// Index of the buffer.
    pub buffer: usize,
    /// Where the range starts.
    pub byte_offset: usize,
    /// How long the range is.
    pub byte_length: usize,
}

/// What a [`SubtreeDocument`] stands for.
#[verifier::ext_equal]
pub struct SubtreeModel {
    pub buffers: Seq<Option<Seq<char>>>,
    pub buffer_views: Seq<BufferViewHeader>,
    pub tile_availability: JsonModel,
    pub content_availability: Option<Seq<JsonModel>>,
    pub child_subtree_availability: JsonModel,
    pub content_uri: Option<Seq<char>>,
    pub subtree_uri: Option<Seq<char>>,
    pub extensions: Option<Seq<(Seq<char>, JsonModel)>>,
}

impl View for SubtreeDocument {
    type V = SubtreeModel;

    open spec fn view(&self) -> SubtreeModel {
        SubtreeModel {
            buffers: self.buffers@.map_values(|b: BufferHeader| web_url::optional_text(b.uri)),
            buffer_views: self.buffer_views@,
            tile_availability: self.tile_availability@,
            content_availability: match self.content_availability {
                Some(entries) => Some(json::values_view(entries@)),
                None => None,
            },
            child_subtree_availability: self.child_subtree_availability@,
            content_uri: web_url::optional_text(self.content_uri),
            subtree_uri: web_url::optional_text(self.subtree_uri),
            extensions: match self.extensions {
                Some(entries) => Some(json::entries_view(entries@)),
                None => None,
            },
        }
    }
}

/// Content availability in either the 1.1 array form or the 1.0
/// `3DTILES_multiple_contents` extension form.
pub open spec fn content_entries(document: SubtreeModel) -> Option<Seq<JsonModel>> {
    match document.content_availability {
        Some(entries) => Some(entries),
        None => match document.extensions {
            Some(extensions) => match json::lookup(extensions, MULTIPLE_CONTENTS_EXTENSION@) {
                Some(extension) => match json::field(extension, "contentAvailability"@) {
                    Some(JsonModel::Array(entries)) => Some(entries),
                    _ => None,
                },
                None => None,
            },
            None => None,
        },
    }
}

impl SubtreeDocument {
    /// Content availability in either the 1.1 array form or the 1.0
    /// `3DTILES_multiple_contents` extension form.
    pub fn content_availability(&self) -> (out: Option<&Vec<Json>>)
        ensures
            match out {
                Some(entries) => content_entries(self@) == Some(json::values_view(entries@)),
                None => content_entries(self@) is None,
            },
    {
        if let Some(entries) = &self.content_availability {
            return Some(entries);
        }
        match &self.extensions {
            Some(extensions) => match json::find(extensions, MULTIPLE_CONTENTS_EXTENSION) {
                Some(extension) => match extension.get("contentAvailability") {
                    Some(entries) => entries.as_array(),
                    None => None,
                },
                None => None,
            },
            None => None,
        }
    }
}

/// What loading the buffers of a subtree document needs next.
#[derive(Debug)]
pub enum BufferStep {
    /// Nothing: every buffer is there.
    Done,
    /// The body behind this URL.
    Fetch(Url),
}

/// What a [`BufferStep`] stands for.
#[verifier::ext_equal]
pub enum BufferStepModel {
    /// Every buffer is there.
    Done,
    /// A body has to be fetched.
    Fetch(UrlParts),
}

impl View for BufferStep {
    type V = BufferStepModel;

    open spec fn view(&self) -> BufferStepModel {
        match self {
            BufferStep::Done => BufferStepModel::Done,
            BufferStep::Fetch(url) => BufferStepModel::Fetch(url@),
        }
    }
}

/// The buffers of a subtree document, loaded one after the other.
///
/// Buffer 0 without a `uri` is the document's own binary chunk, following the
/// GLB convention.
#[derive(Debug)]
pub struct LoadedBuffers {
    /// The buffers so far.
    pub buffers: Vec<Vec<u8>>,
    /// Where the buffers that are not the binary chunk came from.
    pub external: Vec<Url>,
}

/// What a [`LoadedBuffers`] stands for.
#[verifier::ext_equal]
pub struct LoadedModel {
    pub buffers: Seq<Seq<u8>>,
    pub external: Seq<UrlParts>,
}

/// The contents of a list of byte vectors.
pub open spec fn contents(buffers: Seq<Vec<u8>>) -> Seq<Seq<u8>> {
    buffers.map_values(|b: Vec<u8>| b@)
}

/// What a list of URLs stands for.
pub open spec fn url_views(urls: Seq<Url>) -> Seq<UrlParts> {
    urls.map_values(|u: Url| u@)
}

impl View for LoadedBuffers {
    type V = LoadedModel;

    open spec fn view(&self) -> LoadedModel {
        LoadedModel { buffers: contents(self.buffers@), external: url_views(self.external@) }
    }
}

/// What loading needs next, with the buffers `loaded` there already: the loaded
/// buffers afterwards, and the step.
pub open spec fn next_buffer(
    document: SubtreeModel,
    binary: Seq<u8>,
    url: UrlParts,
    loaded: Seq<Seq<u8>>,
) -> (Seq<Seq<u8>>, core::result::Result<BufferStepModel, ErrorModel>)
    decreases document.buffers.len() - loaded.len(),
{
    let index = loaded.len();
    if index >= document.buffers.len() {
        (loaded, Ok(BufferStepModel::Done))
    } else {
        match document.buffers[index as int] {
            Some(uri) => match web_url::join_outcome(url, uri) {
                Ok(source) => (loaded, Ok(BufferStepModel::Fetch(source))),
                Err(error) => (loaded, Err(error)),
            },
            None => if index == 0 {
                next_buffer(document, binary, url, loaded.push(binary))
            } else {
                (
                    loaded,
                    Err(
                        defect(
                            url,
                            "buffer "@ + text::decimal(index)
                                + " has no `uri`; only buffer 0 may be the binary chunk"@,
                        ),
                    ),
                )
            },
        }
    }
}

impl LoadedBuffers {
    /// No buffers yet.
    pub fn new() -> (out: LoadedBuffers)
        ensures
            out@ == (LoadedModel { buffers: Seq::empty(), external: Seq::empty() }),
    {
        let out = LoadedBuffers { buffers: Vec::new(), external: Vec::new() };
        assert(out@ =~= (LoadedModel { buffers: Seq::empty(), external: Seq::empty() }));
        out
    }

    /// Takes the binary chunk where it is due, and tells what has to be fetched
    /// next.
    pub fn step(&mut self, document: &SubtreeDocument, binary: &[u8], url: &Url) -> (out: Result<
        BufferStep,
    >)
        ensures
            (final(self)@.buffers, error::outcome(out)) == next_buffer(
                document@,
                binary@,
                url@,
                old(self)@.buffers,
            ),
            final(self)@.external == old(self)@.external,
    {
        if self.buffers.len() == 0 && document.buffers.len() > 0 {
            assert(document@.buffers[0] == web_url::optional_text(document.buffers@[0].uri));
            if document.buffers[0].uri.is_none() {
                let ghost before = self@.buffers;
                self.buffers.push(vstd::slice::slice_to_vec(binary));
                assert(self@.buffers =~= before.push(binary@));
            }
        }
        assert(next_buffer(document@, binary@, url@, old(self)@.buffers) == next_buffer(
            document@,
            binary@,
            url@,
            self@.buffers,
        ));
        let index = self.buffers.len();
        if index >= document.buffers.len() {
            return Ok(BufferStep::Done);
        }
        assert(document@.buffers[index as int] == web_url::optional_text(
            document.buffers@[index as int].uri,
        ));
        match &document.buffers[index].uri {
            Some(uri) => {
                let source = url.join(uri.as_str())?;
                Ok(BufferStep::Fetch(source))
            },
            None => {
                let mut detail = "buffer ".to_owned();
                detail.append(text::decimal_text(index as u64).as_str());
                detail.append(" has no `uri`; only buffer 0 may be the binary chunk");
                Err(malformed(url, detail.as_str()))
            },
        }
    }

    /// Adds the body that was fetched from `source`.
    pub fn supply(&mut self, source: Url, body: Vec<u8>)
        ensures
            final(self)@.buffers == old(self)@.buffers.push(body@),
            final(self)@.external == old(self)@.external.push(source@),
    {
        self.buffers.push(body);
        self.external.push(source);
        assert(self@.buffers =~= old(self)@.buffers.push(body@));
        assert(self@.external =~= old(self)@.external.push(source@));
    }
}

/// The bytes of one view, or what is wrong with it.
pub open spec fn view_bytes(
    header: BufferViewHeader,
    index: nat,
    buffers: Seq<Seq<u8>>,
) -> core::result::Result<Seq<u8>, Seq<char>> {
    let end = header.byte_offset + header.byte_length;
    if header.buffer >= buffers.len() {
        Err(
            "bufferView "@ + text::decimal(index) + " refers to missing buffer "@ + text::decimal(
                header.buffer as nat,
            ),
        )
    } else if end > usize::MAX {
        Err("bufferView "@ + text::decimal(index) + " length overflows"@)
    } else if end > buffers[header.buffer as int].len() {
        Err(
            "bufferView "@ + text::decimal(index) + " needs bytes "@ + text::decimal(
                header.byte_offset as nat,
            ) + ".."@ + text::decimal(end as nat) + " but buffer "@ + text::decimal(
                header.buffer as nat,
            ) + " is "@ + text::decimal(buffers[header.buffer as int].len()) + " bytes"@,
        )
    } else {
        Ok(buffers[header.buffer as int].subrange(header.byte_offset as int, end))
    }
}

/// The first `n` views, each cut from its buffer; the first that cannot be cut is
/// the defect.
pub open spec fn views_of(
    headers: Seq<BufferViewHeader>,
    buffers: Seq<Seq<u8>>,
    url: UrlParts,
    n: nat,
) -> core::result::Result<Seq<Seq<u8>>, ErrorModel>
    decreases n,
{
    if n == 0 {
        Ok(Seq::empty())
    } else {
        match views_of(headers, buffers, url, (n - 1) as nat) {
            Ok(views) => match view_bytes(headers[n - 1], (n - 1) as nat, buffers) {
                Ok(bytes) => Ok(views.push(bytes)),
                Err(detail) => Err(defect(url, detail)),
            },
            Err(error) => Err(error),
        }
    }
}

/// The bytes of a list of slices.
pub open spec fn slice_views(slices: Seq<&[u8]>) -> Seq<Seq<u8>> {
    slices.map_values(|s: &[u8]| s@)
}

/// What a result of slices stands for.
pub open spec fn views_outcome(result: Result<Vec<&[u8]>>) -> core::result::Result<
    Seq<Seq<u8>>,
    ErrorModel,
> {
    match result {
        Ok(slices) => Ok(slice_views(slices@)),
        Err(error) => Err(error@),
    }
}

fn view_slice<'a>(header: BufferViewHeader, index: usize, buffers: &'a Vec<Vec<u8>>) -> (out:
    core::result::Result<&'a [u8], String>)
    ensures
        match out {
            Ok(slice) => view_bytes(header, index as nat, contents(buffers@)) == Ok::<
                Seq<u8>,
                Seq<char>,
            >(slice@),
            Err(detail) => view_bytes(header, index as nat, contents(buffers@)) == Err::<
                Seq<u8>,
                Seq<char>,
            >(detail@),
        },
{
    if header.buffer >= buffers.len() {
        let mut detail = "bufferView ".to_owned();
        detail.append(text::decimal_text(index as u64).as_str());
        detail.append(" refers to missing buffer ");
        detail.append(text::decimal_text(header.buffer as u64).as_str());
        return Err(detail);
    }
    let buffer = &buffers[header.buffer];
    assert(contents(buffers@)[header.buffer as int] == buffer@);
    let end = match header.byte_offset.checked_add(header.byte_length) {
        Some(end) => end,
        None => {
            let mut detail = "bufferView ".to_owned();
            detail.append(text::decimal_text(index as u64).as_str());
            detail.append(" length overflows");
            return Err(detail);
        },
    };
    if end > buffer.len() {
        let mut detail = "bufferView ".to_owned();
        detail.append(text::decimal_text(index as u64).as_str());
        detail.append(" needs bytes ");
        detail.append(text::decimal_text(header.byte_offset as u64).as_str());
        detail.append("..");
        detail.append(text::decimal_text(end as u64).as_str());
        detail.append(" but buffer ");
        detail.append(text::decimal_text(header.buffer as u64).as_str());
        detail.append(" is ");
        detail.append(text::decimal_text(buffer.len() as u64).as_str());
        detail.append(" bytes");
        return Err(detail);
    }
    Ok(slice_subrange(buffer.as_slice(), header.byte_offset, end))
}

/// Slices each buffer view out of its buffer.
pub fn buffer_view_slices<'a>(
    document: &SubtreeDocument,
    buffers: &'a Vec<Vec<u8>>,
    url: &Url,
) -> (out: Result<Vec<&'a [u8]>>)
    ensures
        views_outcome(out) == views_of(
            document@.buffer_views,
            contents(buffers@),
            url@,
            document@.buffer_views.len(),
        ),
{
    let mut views: Vec<&'a [u8]> = Vec::new();
    let ghost headers = document@.buffer_views;
    let ghost bodies = contents(buffers@);
    let mut i: usize = 0;
    assert(slice_views(views@) =~= Seq::<Seq<u8>>::empty());
    while i < document.buffer_views.len()
        invariant
            i <= document.buffer_views.len(),
            headers == document.buffer_views@,
            bodies == contents(buffers@),
            views_of(headers, bodies, url@, i as nat) == Ok::<Seq<Seq<u8>>, ErrorModel>(
                slice_views(views@),
            ),
        decreases document.buffer_views.len() - i,
    {
        let ghost before = slice_views(views@);
        match view_slice(document.buffer_views[i], i, buffers) {
            Ok(slice) => {
                views.push(slice);
                assert(slice_views(views@) =~= before.push(slice@));
            },
            Err(detail) => {
                proof {
                    assert(views_of(headers, bodies, url@, (i + 1) as nat) == Err::<
                        Seq<Seq<u8>>,
                        ErrorModel,
                    >(defect(url@, detail@)));
                    lemma_first_bad_view(headers, bodies, url@, (i + 1) as nat, headers.len());
                }
                return Err(malformed(url, detail.as_str()));
            },
        }
        i += 1;
    }
    Ok(views)
}

proof fn lemma_first_bad_view(
    headers: Seq<BufferViewHeader>,
    buffers: Seq<Seq<u8>>,
    url: UrlParts,
    n: nat,
    m: nat,
)
    requires
        n <= m,
        views_of(headers, buffers, url, n) is Err,
    ensures
        views_of(headers, buffers, url, m) == views_of(headers, buffers, url, n),
    decreases m - n,
{
    if n < m {
        lemma_first_bad_view(headers, buffers, url, n, (m - 1) as nat);
    }
}

/// An availability bitstream, in either of its two forms.
#[derive(Debug, Clone)]
pub enum Availability {
    /// One value for every element.
    Constant(bool),
    /// Packed bits, least-significant bit first.
    Bits(Vec<u8>),
}

/// What an [`Availability`] stands for.
#[verifier::ext_equal]
pub enum AvailabilityModel {
    /// One value for every element.
    Constant(bool),
    /// Packed bits.
    Bits(Seq<u8>),
}

impl View for Availability {
    type V = AvailabilityModel;

    open spec fn view(&self) -> AvailabilityModel {
        match self {
            Availability::Constant(value) => AvailabilityModel::Constant(*value),
            Availability::Bits(bytes) => AvailabilityModel::Bits(bytes@),
        }
    }
}

/// Bit `i` of a byte, counted from the least significant.
pub open spec fn byte_bit(byte: u8, i: u8) -> bool {
    (byte >> i) & 1 == 1
}

/// Whether element `index` is available: the constant, or bit `index % 8` of byte
/// `index / 8`; nothing is available past the last byte.
pub open spec fn is_available(availability: AvailabilityModel, index: int) -> bool {
    match availability {
        AvailabilityModel::Constant(value) => value,
        AvailabilityModel::Bits(bytes) => 0 <= index / 8 < bytes.len() && byte_bit(
            bytes[index / 8],
            (index % 8) as u8,
        ),
    }
}

impl Availability {
    /// Reads bit `index`.
    pub fn get(&self, index: u64) -> (out: bool)
        ensures
            out == is_available(self@, index as int),
            self@ matches AvailabilityModel::Bits(bytes) ==> out == (index < 8 * bytes.len() && (
            bytes[index as int / 8] as nat / power2::pow2((index % 8) as nat)) % 2 == 1),
    {
        proof {
            if let AvailabilityModel::Bits(bytes) = self@ {
                law_bits_are_least_significant_first(bytes, index as int);
            }
        }
        match self {
            Availability::Constant(value) => *value,
            Availability::Bits(bytes) => {
                if index / 8 < bytes.len() as u64 {
                    let byte = bytes[(index / 8) as usize];
                    (byte >> ((index % 8) as u8)) & 1 == 1
                } else {
                    false
                }
            },
        }
    }

    /// A copy of this availability.
    pub fn duplicate(&self) -> (out: Availability)
        ensures
            out@ == self@,
    {
        match self {
            Availability::Constant(value) => Availability::Constant(*value),
            Availability::Bits(bytes) => Availability::Bits(
                vstd::slice::slice_to_vec(bytes.as_slice()),
            ),
        }
    }
}

/// What `STANDARD.decode` of the `base64` crate makes of a text: the bytes, or the
/// message of its error.
pub uninterp spec fn base64_decoded(encoded: Seq<char>) -> core::result::Result<
    Seq<u8>,
    Seq<char>,
>;

/// What a decoding result stands for.
pub open spec fn decoded_view(result: core::result::Result<Vec<u8>, String>) -> core::result::Result<
    Seq<u8>,
    Seq<char>,
> {
    match result {
        Ok(bytes) => Ok(bytes@),
        Err(message) => Err(message@),
    }
}

/// `base64::engine::general_purpose::STANDARD.decode`. The result is a function of
/// the text.
#[verifier::external_body]
fn decode_base64(encoded: &str) -> (out: core::result::Result<Vec<u8>, String>)
    ensures
        decoded_view(out) == base64_decoded(encoded@),
{
    base64::Engine::decode(&base64::engine::general_purpose::STANDARD, encoded).map_err(
        |error| error.to_string(),
    )
}

/// How many bytes `bits` bits are packed into.
pub open spec fn packed_length(bits: int) -> int {
    (bits + 7) / 8
}

/// The availability that a decoded base64 text gives.
pub open spec fn decoded_bits(
    decoded: core::result::Result<Seq<u8>, Seq<char>>,
    bits: nat,
    what: Seq<char>,
) -> core::result::Result<AvailabilityModel, Seq<char>> {
    match decoded {
        Err(message) => Err(what + ": `bitstream` is not valid base64 ("@ + message + ")"@),
        Ok(bytes) => if bytes.len() != packed_length(bits as int) {
            Err(
                what + ": bitstream is "@ + text::decimal(bytes.len()) + " bytes but "@
                    + text::decimal(packed_length(bits as int) as nat) + " are required for "@
                    + text::decimal(bits) + " bits"@,
            )
        } else {
            Ok(AvailabilityModel::Bits(bytes))
        },
    }
}

/// The availability that a buffer view gives.
pub open spec fn view_bits(
    index: usize,
    bits: nat,
    views: Seq<Seq<u8>>,
    what: Seq<char>,
) -> core::result::Result<AvailabilityModel, Seq<char>> {
    if index >= views.len() {
        Err(what + ": bufferView "@ + text::decimal(index as nat) + " does not exist"@)
    } else if views[index as int].len() != packed_length(bits as int) {
        Err(
            what + ": bufferView "@ + text::decimal(index as nat) + " is "@ + text::decimal(
                views[index as int].len(),
            ) + " bytes but "@ + text::decimal(packed_length(bits as int) as nat)
                + " are required"@,
        )
    } else {
        Ok(AvailabilityModel::Bits(views[index as int]))
    }
}

/// The value of a `constant`: itself where it is a truth value, whether it is not
/// zero where it is a number, and false otherwise.
pub open spec fn constant_value(constant: JsonModel) -> bool {
    match constant {
        JsonModel::Bool(value) => value,
        JsonModel::Number(Some(value)) => value != 0,
        _ => false,
    }
}

/// The availability of `bits` elements that a JSON object describes, or what is
/// wrong with it.
///
/// Three spellings are accepted: `constant`, `bitstream` as a buffer-view index
/// (current schema), and `bitstream` as a base64 string (the 3D Tiles 1.0
/// draft), plus the older `bufferView` key.
pub open spec fn described(
    raw: JsonModel,
    bits: nat,
    views: Seq<Seq<u8>>,
    what: Seq<char>,
) -> core::result::Result<AvailabilityModel, Seq<char>> {
    match json::field(raw, "constant"@) {
        Some(constant) => Ok(AvailabilityModel::Constant(constant_value(constant))),
        None => match json::field(raw, "bitstream"@) {
            Some(JsonModel::Number(Some(index))) => view_bits(index as usize, bits, views, what),
            Some(JsonModel::Text(encoded)) => decoded_bits(base64_decoded(encoded), bits, what),
            Some(_) => Err(
                what + ": `bitstream` is neither a bufferView index nor a base64 string"@,
            ),
            None => match json::number_of(json::field(raw, "bufferView"@)) {
                Some(index) => view_bits(index as usize, bits, views, what),
                None => Err(what + ": neither `bitstream` nor `constant` is present"@),
            },
        },
    }
}

/// [`described`], with a defect attributed to the document it is in.
pub open spec fn availability_of(
    raw: JsonModel,
    bits: nat,
    views: Seq<Seq<u8>>,
    url: UrlParts,
    what: Seq<char>,
) -> core::result::Result<AvailabilityModel, ErrorModel> {
    attributed(described(raw, bits, views, what), url)
}

/// A defect attributed to the document it is in.
pub open spec fn attributed(
    result: core::result::Result<AvailabilityModel, Seq<char>>,
    url: UrlParts,
) -> core::result::Result<AvailabilityModel, ErrorModel> {
    match result {
        Ok(availability) => Ok(availability),
        Err(detail) => Err(defect(url, detail)),
    }
}

fn packed(bits: u64) -> (length: u64)
    ensures
        length == packed_length(bits as int),
{
    if bits % 8 == 0 {
        bits / 8
    } else {
        bits / 8 + 1
    }
}

/// The availability that the base64 form of a bitstream gives, once it was decoded.
pub fn decoded_availability(
    decoded: core::result::Result<Vec<u8>, String>,
    length_bits: u64,
    url: &Url,
    what: &str,
) -> (out: Result<Availability>)
    ensures
        error::outcome(out) == attributed(
            decoded_bits(decoded_view(decoded), length_bits as nat, what@),
            url@,
        ),
{
    match decoded {
        Err(message) => {
            let mut detail = what.to_owned();
            detail.append(": `bitstream` is not valid base64 (");
            detail.append(message.as_str());
            detail.append(")");
            Err(malformed(url, detail.as_str()))
        },
        Ok(bytes) => {
            let expected = packed(length_bits);
            if bytes.len() as u64 != expected {
                let mut detail = what.to_owned();
                detail.append(": bitstream is ");
                detail.append(text::decimal_text(bytes.len() as u64).as_str());
                detail.append(" bytes but ");
                detail.append(text::decimal_text(expected).as_str());
                detail.append(" are required for ");
                detail.append(text::decimal_text(length_bits).as_str());
                detail.append(" bits");
                return Err(malformed(url, detail.as_str()));
            }
            Ok(Availability::Bits(bytes))
        },
    }
}

/// The availability that a buffer view holds.
pub fn buffer_view_availability(
    index: usize,
    length_bits: u64,
    views: &Vec<&[u8]>,
    url: &Url,
    what: &str,
) -> (out: Result<Availability>)
    ensures
        error::outcome(out) == attributed(
            view_bits(index, length_bits as nat, slice_views(views@), what@),
            url@,
        ),
{
    let expected = packed(length_bits);
    if index >= views.len() {
        let mut detail = what.to_owned();
        detail.append(": bufferView ");
        detail.append(text::decimal_text(index as u64).as_str());
        detail.append(" does not exist");
        return Err(malformed(url, detail.as_str()));
    }
    let bytes = views[index];
    assert(slice_views(views@)[index as int] == bytes@);
    if bytes.len() as u64 != expected {
        let mut detail = what.to_owned();
        detail.append(": bufferView ");
        detail.append(text::decimal_text(index as u64).as_str());
        detail.append(" is ");
        detail.append(text::decimal_text(bytes.len() as u64).as_str());
        detail.append(" bytes but ");
        detail.append(text::decimal_text(expected).as_str());
        detail.append(" are required");
        return Err(malformed(url, detail.as_str()));
    }
    Ok(Availability::Bits(vstd::slice::slice_to_vec(bytes)))
}

fn constant_of(constant: &Json) -> (value: bool)
    ensures
        value == constant_value(constant@),
{
    match constant.as_bool() {
        Some(value) => value,
        None => match constant.as_u64() {
            Some(value) => value != 0,
            None => false,
        },
    }
}

/// Turns one `Availability` JSON object into an [`Availability`].
pub fn read_availability(
    raw: &Json,
    length_bits: u64,
    views: &Vec<&[u8]>,
    url: &Url,
    what: &str,
) -> (out: Result<Availability>)
    ensures
        error::outcome(out) == availability_of(
            raw@,
            length_bits as nat,
            slice_views(views@),
            url@,
            what@,
        ),
{
    if let Some(constant) = raw.get("constant") {
        return Ok(Availability::Constant(constant_of(constant)));
    }
    if let Some(bitstream) = raw.get("bitstream") {
        if let Some(index) = bitstream.as_u64() {
            return buffer_view_availability(index as usize, length_bits, views, url, what);
        }
        if let Some(encoded) = bitstream.as_str() {
            return decoded_availability(decode_base64(encoded), length_bits, url, what);
        }
        let mut detail = what.to_owned();
        detail.append(": `bitstream` is neither a bufferView index nor a base64 string");
        return Err(malformed(url, detail.as_str()));
    }
    let view = match raw.get("bufferView") {
        Some(value) => value.as_u64(),
        None => None,
    };
    match view {
        Some(index) => buffer_view_availability(index as usize, length_bits, views, url, what),
        None => {
            let mut detail = what.to_owned();
            detail.append(": neither `bitstream` nor `constant` is present");
            Err(malformed(url, detail.as_str()))
        },
    }
}

/// Bits are packed least-significant bit first, in every byte alike: element `i` is
/// available exactly when the binary digit of weight `2^(i % 8)` of byte `i / 8` is one.
/// Past the last byte nothing is available.
pub proof fn law_bits_are_least_significant_first(bytes: Seq<u8>, i: int)
    requires
        0 <= i,
    ensures
        i < 8 * bytes.len() ==> (is_available(AvailabilityModel::Bits(bytes), i) <==> (
        bytes[i / 8] as nat / power2::pow2((i % 8) as nat)) % 2 == 1),
        i >= 8 * bytes.len() ==> !is_available(AvailabilityModel::Bits(bytes), i),
{
    if i < 8 * bytes.len() {
        let byte = bytes[i / 8];
        let shift = (i % 8) as u8;
        vstd::bits::lemma_u8_shr_is_div(byte, shift);
        let moved = byte >> shift;
        assert(moved & 1 == moved % 2) by (bit_vector);
    }
}

/// One value for all is had at every index.
pub proof fn law_constant_holds_everywhere(value: bool, i: int)
    ensures
        is_available(AvailabilityModel::Constant(value), i) == value,
{
}

/// What the `k`-th of eight truth values adds to the byte that they are packed into.
pub open spec fn bit_weight(bits: Seq<bool>, at: int, k: nat) -> int {
    if at + k < bits.len() && bits[at + k as int] {
        power2::pow2(k) as int
    } else {
        0
    }
}

/// The binary digits of a number below 256 are what it is made of.
proof fn lemma_digits(c: Seq<int>, n: int)
    requires
        c.len() == 8,
        forall|k: int| 0 <= k < 8 ==> 0 <= #[trigger] c[k] <= 1,
        n == c[0] + 2 * c[1] + 4 * c[2] + 8 * c[3] + 16 * c[4] + 32 * c[5] + 64 * c[6] + 128 * c[7],
    ensures
        n % 2 == c[0],
        n / 2 % 2 == c[1],
        n / 4 % 2 == c[2],
        n / 8 % 2 == c[3],
        n / 16 % 2 == c[4],
        n / 32 % 2 == c[5],
        n / 64 % 2 == c[6],
        n / 128 % 2 == c[7],
{
    let h7 = c[7];
    let h6 = c[6] + 2 * h7;
    let h5 = c[5] + 2 * h6;
    let h4 = c[4] + 2 * h5;
    let h3 = c[3] + 2 * h4;
    let h2 = c[2] + 2 * h3;
    let h1 = c[1] + 2 * h2;
    assert(n == c[0] + 2 * h1);
    assert(n / 2 == h1);
    assert(n / 4 == h2);
    assert(n / 8 == h3);
    assert(n / 16 == h4);
    assert(n / 32 == h5);
    assert(n / 64 == h6);
    assert(n / 128 == h7);
}

/// What is packed can be read back: where each byte is the sum of the powers of two of
/// its eight truth values, the lowest power first, every truth value is found again at
/// its own index.
pub proof fn law_packed_bits_are_read_back(bits: Seq<bool>, bytes: Seq<u8>, i: int)
    requires
        bits.len() <= 8 * bytes.len(),
        forall|b: int|
            0 <= b < bytes.len() ==> (#[trigger] bytes[b]) as int == bit_weight(bits, 8 * b, 0)
                + bit_weight(bits, 8 * b, 1) + bit_weight(bits, 8 * b, 2) + bit_weight(
                bits,
                8 * b,
                3,
            ) + bit_weight(bits, 8 * b, 4) + bit_weight(bits, 8 * b, 5) + bit_weight(
                bits,
                8 * b,
                6,
            ) + bit_weight(bits, 8 * b, 7),
        0 <= i < bits.len(),
    ensures
        is_available(AvailabilityModel::Bits(bytes), i) == bits[i],
{
    power2::lemma2_to64();
    law_bits_are_least_significant_first(bytes, i);
    let b = i / 8;
    let byte = bytes[b] as int;
    let k = i % 8;
    assert(8 * b + k == i);
    let digits = Seq::new(
        8,
        |k: int|
            if 8 * b + k < bits.len() && bits[8 * b + k] {
                1int
            } else {
                0
            },
    );
    assert(forall|k: int| 0 <= k < 8 ==> #[trigger] digits[k] == if 8 * b + k < bits.len()
        && bits[8 * b + k] {
        1int
    } else {
        0
    });
    assert(digits[0] + 2 * digits[1] + 4 * digits[2] + 8 * digits[3] + 16 * digits[4] + 32
        * digits[5] + 64 * digits[6] + 128 * digits[7] == byte);
    lemma_digits(digits, byte);
    assert(digits[k] == if bits[i] {
        1int
    } else {
        0
    });
    let scale = power2::pow2(k as nat);
    if k == 0 {
        assert(scale == 1);
    } else if k == 1 {
        assert(scale == 2);
    } else if k == 2 {
        assert(scale == 4);
    } else if k == 3 {
        assert(scale == 8);
    } else if k == 4 {
        assert(scale == 16);
    } else if k == 5 {
        assert(scale == 32);
    } else if k == 6 {
        assert(scale == 64);
    } else {
        assert(scale == 128);
    }
    assert(bytes[b] as nat / scale % 2 == digits[k]);
}

/// The four bytes of a number below `2^32`, the least significant first.
pub open spec fn four_bytes(n: nat) -> Seq<u8> {
    seq![
        (n % 256) as u8,
        (n / 256 % 256) as u8,
        (n / 65536 % 256) as u8,
        (n / 16777216 % 256) as u8,
    ]
}

/// Four bytes are read as they are written.
pub proof fn law_little_endian_reads_back(n: nat, before: Seq<u8>, behind: Seq<u8>)
    requires
        n < 0x1_0000_0000,
    ensures
        little_endian(before + four_bytes(n) + behind, before.len() as int) == n,
{
    let bytes = before + four_bytes(n) + behind;
    let at = before.len() as int;
    assert(bytes[at] == four_bytes(n)[0]);
    assert(bytes[at + 1] == four_bytes(n)[1]);
    assert(bytes[at + 2] == four_bytes(n)[2]);
    assert(bytes[at + 3] == four_bytes(n)[3]);
}

/// A container that is written down byte by byte is split into what was put in: the
/// letters `subt`, a version, the length of the JSON and that of the binary chunk, the
/// low four bytes of each first, and then the chunks. What the version and the high
/// bytes of the lengths hold does not matter, nor does what follows the chunks.
pub proof fn law_written_container_is_split(
    version: Seq<u8>,
    json: Seq<u8>,
    json_high: Seq<u8>,
    binary: Seq<u8>,
    binary_high: Seq<u8>,
    rest: Seq<u8>,
    url: UrlParts,
)
    requires
        version.len() == 4,
        json_high.len() == 4,
        binary_high.len() == 4,
        json.len() < 0x1_0000_0000,
        binary.len() < 0x1_0000_0000,
        24 + json.len() + binary.len() <= usize::MAX,
    ensures
        chunks(
            seq![115u8, 117, 98, 116] + version + four_bytes(json.len()) + json_high + four_bytes(
                binary.len(),
            ) + binary_high + json + binary + rest,
            url,
        ) == Ok::<(Seq<u8>, Seq<u8>), ErrorModel>((json, binary)),
{
    let letters = seq![115u8, 117, 98, 116];
    let front = letters + version;
    let middle = front + four_bytes(json.len()) + json_high;
    let bytes = middle + four_bytes(binary.len()) + binary_high + json + binary + rest;
    let after_json = json_high + four_bytes(binary.len()) + binary_high + json + binary + rest;
    let after_binary = binary_high + json + binary + rest;
    assert(bytes =~= front + four_bytes(json.len()) + after_json);
    assert(bytes =~= middle + four_bytes(binary.len()) + after_binary);
    law_little_endian_reads_back(json.len(), front, after_json);
    law_little_endian_reads_back(binary.len(), middle, after_binary);
    assert(bytes.take(4) =~= subtree_magic());
    let json_end: int = 24 + json.len() as int;
    assert(bytes.subrange(24, json_end) =~= json);
    assert(bytes.subrange(json_end, json_end + binary.len()) =~= binary);
}

/// Which documents are split, and how. One that does not start with the letters `subt`
/// is JSON as a whole. One that does is split exactly where it holds the 24 bytes of the
/// header and the two chunks that the header announces, and is refused otherwise, in the
/// name of its URL.
pub proof fn law_containers_are_checked(bytes: Seq<u8>, url: UrlParts)
    ensures
        ({
            let container = bytes.len() >= 4 && bytes[0] == 115 && bytes[1] == 117 && bytes[2]
                == 98 && bytes[3] == 116;
            let json_length = bytes[8] + 256 * bytes[9] + 65536 * bytes[10] + 16777216
                * bytes[11];
            let binary_length = bytes[16] + 256 * bytes[17] + 65536 * bytes[18] + 16777216
                * bytes[19];
            let fits = bytes.len() >= 24 && 24 + json_length + binary_length <= bytes.len();
            &&& !container ==> chunks(bytes, url) == Ok::<(Seq<u8>, Seq<u8>), ErrorModel>(
                (bytes, Seq::empty()),
            )
            &&& container && fits && bytes.len() <= usize::MAX ==> {
                &&& chunks(bytes, url) matches Ok((json, binary)) && json.len() == json_length
                    && binary.len() == binary_length && bytes.take(24) + json + binary
                    == bytes.take(24 + json_length + binary_length)
            }
            &&& container && !fits ==> {
                &&& chunks(bytes, url) matches Err(ErrorModel::Availability { url: at, .. }) && at
                    == url.text
            }
        }),
{
    if bytes.len() >= 4 {
        let start = bytes.take(4);
        assert(start[0] == bytes[0] && start[1] == bytes[1] && start[2] == bytes[2] && start[3]
            == bytes[3]);
        if bytes[0] == 115 && bytes[1] == 117 && bytes[2] == 98 && bytes[3] == 116 {
            assert(start =~= subtree_magic());
            if let Ok((json, binary)) = chunks(bytes, url) {
                assert(bytes.take(24) + json + binary =~= bytes.take(
                    24 + json.len() as int + binary.len(),
                ));
            }
        }
    }
}

/// A view is a range of its buffer: it is had exactly where the buffer exists and holds
/// the whole range, and then it has the announced length and the bytes from its offset
/// on.
pub proof fn law_view_is_a_range(header: BufferViewHeader, index: nat, buffers: Seq<Seq<u8>>)
    requires
        forall|b: int| 0 <= b < buffers.len() ==> (#[trigger] buffers[b]).len() <= usize::MAX,
    ensures
        view_bytes(header, index, buffers) is Ok <==> header.buffer < buffers.len()
            && header.byte_offset + header.byte_length <= buffers[header.buffer as int].len(),
        view_bytes(header, index, buffers) matches Ok(bytes) ==> bytes.len() == header.byte_length
            && forall|i: int|
            0 <= i < bytes.len() ==> #[trigger] bytes[i] == buffers[header.buffer as int][header.byte_offset
                + i],
{
}

/// Every view is cut, in the order of the headers, and one that cannot be cut fails them
/// all: the views are had exactly where each of them is, and otherwise the first that is
/// not gives the defect.
pub proof fn law_views_are_all_or_none(
    headers: Seq<BufferViewHeader>,
    buffers: Seq<Seq<u8>>,
    url: UrlParts,
    n: nat,
)
    requires
        n <= headers.len(),
    ensures
        views_of(headers, buffers, url, n) matches Ok(views) ==> views.len() == n && forall|i: int|

            0 <= i < n ==> view_bytes(headers[i], i as nat, buffers) == Ok::<Seq<u8>, Seq<char>>(
                #[trigger] views[i],
            ),
        views_of(headers, buffers, url, n) matches Err(error) ==> exists|k: int|
            {
                &&& 0 <= k < n
                &&& #[trigger] view_bytes(headers[k], k as nat, buffers) matches Err(detail)
                    && error == ErrorModel::Availability { url: url.text, detail }
                &&& forall|i: int|
                    0 <= i < k ==> #[trigger] view_bytes(headers[i], i as nat, buffers) is Ok
            },
    decreases n,
{
    if n > 0 {
        let m = (n - 1) as nat;
        law_views_are_all_or_none(headers, buffers, url, m);
        match views_of(headers, buffers, url, m) {
            Ok(views) => {
                assert forall|i: int| 0 <= i < m implies #[trigger] view_bytes(
                    headers[i],
                    i as nat,
                    buffers,
                ) is Ok by {
                    assert(view_bytes(headers[i], i as nat, buffers) == Ok::<Seq<u8>, Seq<char>>(
                        views[i],
                    ));
                }
                match view_bytes(headers[m as int], m, buffers) {
                    Ok(bytes) => {},
                    Err(detail) => {
                        assert(view_bytes(headers[n - 1], (n - 1) as nat, buffers) is Err);
                    },
                }
            },
            Err(error) => {
                let k = choose|k: int|
                    {
                        &&& 0 <= k < m
                        &&& #[trigger] view_bytes(headers[k], k as nat, buffers) matches Err(
                            detail,
                        ) && error == ErrorModel::Availability { url: url.text, detail }
                        &&& forall|i: int|
                            0 <= i < k ==> #[trigger] view_bytes(
                                headers[i],
                                i as nat,
                                buffers,
                            ) is Ok
                    };
                assert(view_bytes(headers[k], k as nat, buffers) is Err);
            },
        }
    }
}

/// Bits are packed without a byte to spare, and without one too few.
pub proof fn law_packing_is_tight(bits: int)
    requires
        0 <= bits,
    ensures
        8 * packed_length(bits) - 8 < bits <= 8 * packed_length(bits),
{
}

/// Where the bits of an availability come from. A `constant` wins over everything else:
/// a truth value is itself, a number is true unless it is zero, and anything else is
/// false. Otherwise a `bitstream` or a `bufferView` that is the index of a view gives that
/// view, provided it has as many bytes as the bits take up.
pub proof fn law_availability_has_its_sources(
    raw: JsonModel,
    bits: nat,
    views: Seq<Seq<u8>>,
    what: Seq<char>,
)
    ensures
        ({
            let result = described(raw, bits, views, what);
            let constant = json::field(raw, "constant"@);
            let bitstream = json::field(raw, "bitstream"@);
            let view = json::field(raw, "bufferView"@);
            let of_view = |index: u64|
                if index < views.len() && 8 * views[index as int].len() - 8 < bits <= 8
                    * views[index as int].len() {
                    result == Ok::<AvailabilityModel, Seq<char>>(
                        AvailabilityModel::Bits(views[index as int]),
                    )
                } else {
                    result is Err
                };
            &&& constant matches Some(JsonModel::Bool(value)) ==> result == Ok::<
                AvailabilityModel,
                Seq<char>,
            >(AvailabilityModel::Constant(value))
            &&& constant matches Some(JsonModel::Number(Some(value))) ==> result == Ok::<
                AvailabilityModel,
                Seq<char>,
            >(AvailabilityModel::Constant(value > 0))
            &&& constant is Some && !(constant->0 is Bool) && json::number_of(constant) is None
                ==> result == Ok::<AvailabilityModel, Seq<char>>(
                AvailabilityModel::Constant(false),
            )
            &&& constant is None ==> (bitstream matches Some(JsonModel::Number(Some(index)))
                ==> index <= usize::MAX ==> of_view(index))
            &&& constant is None && bitstream is None ==> (view matches Some(
                JsonModel::Number(Some(index)),
            ) ==> index <= usize::MAX ==> of_view(index))
            &&& constant is None ==> (bitstream matches Some(JsonModel::Text(encoded)) ==> (
            match base64_decoded(encoded) {
                Ok(bytes) => if 8 * bytes.len() - 8 < bits <= 8 * bytes.len() {
                    result == Ok::<AvailabilityModel, Seq<char>>(AvailabilityModel::Bits(bytes))
                } else {
                    result is Err
                },
                Err(_) => result is Err,
            }))
            &&& constant is None && bitstream is None && json::number_of(view) is None
                ==> result is Err
            &&& constant is None && bitstream is Some && json::number_of(bitstream) is None
                && json::string_of(bitstream) is None ==> result is Err
        }),
{
    reveal_strlit("constant");
    reveal_strlit("bitstream");
    reveal_strlit("bufferView");
}

/// An error of an availability starts with what the availability is of, and is reported
/// in the name of the document.
pub proof fn law_availability_errors_say_where(
    raw: JsonModel,
    bits: nat,
    views: Seq<Seq<u8>>,
    url: UrlParts,
    what: Seq<char>,
)
    ensures
        availability_of(raw, bits, views, url, what) matches Err(error) ==> {
            &&& error matches ErrorModel::Availability { url: at, detail } && at == url.text
                && detail.len() > what.len() && detail.take(what.len() as int) == what
        },
        availability_of(raw, bits, views, url, what) is Ok <==> described(
            raw,
            bits,
            views,
            what,
        ) is Ok,
        availability_of(raw, bits, views, url, what) matches Ok(found) ==> described(
            raw,
            bits,
            views,
            what,
        ) == Ok::<AvailabilityModel, Seq<char>>(found),
{
    reveal_strlit(": `bitstream` is not valid base64 (");
    reveal_strlit(": bitstream is ");
    reveal_strlit(": bufferView ");
    reveal_strlit(": `bitstream` is neither a bufferView index nor a base64 string");
    reveal_strlit(": neither `bitstream` nor `constant` is present");
    if let Err(ErrorModel::Availability { url: at, detail }) = availability_of(
        raw,
        bits,
        views,
        url,
        what,
    ) {
        assert(detail.take(what.len() as int) =~= what);
    }
}

/// The content availability of the document itself wins over that of the extension, and
/// the extension's counts only where it is an array.
pub proof fn law_content_availability_has_two_forms(document: SubtreeModel)
    ensures
        document.content_availability is Some ==> content_entries(document)
            == document.content_availability,
        document.content_availability is None && document.extensions is None ==> content_entries(
            document,
        ) is None,
        document.content_availability is None ==> (document.extensions matches Some(extensions)
            ==> (match json::lookup(extensions, "3DTILES_multiple_contents"@) {
            Some(extension) => match json::field(extension, "contentAvailability"@) {
                Some(JsonModel::Array(entries)) => content_entries(document) == Some(entries),
                _ => content_entries(document) is None,
            },
            None => content_entries(document) is None,
        })),
{
    reveal_strlit("3DTILES_multiple_contents");
    reveal_strlit("contentAvailability");
}

/// Buffers are loaded in their order. Only the first may be the binary chunk, and is
/// where it has no `uri`; a buffer with a `uri` is fetched from there, relative to the
/// document; any other without one is a defect; and loading ends exactly when every
/// buffer is there.
pub proof fn law_buffers_are_loaded_in_order(
    document: SubtreeModel,
    binary: Seq<u8>,
    url: UrlParts,
    loaded: Seq<Seq<u8>>,
)
    requires
        loaded.len() <= document.buffers.len(),
    ensures
        ({
            let (after, step) = next_buffer(document, binary, url, loaded);
            let own = loaded.len() == 0 && document.buffers.len() > 0
                && document.buffers[0] is None;
            &&& after == (if own {
                seq![binary]
            } else {
                loaded
            })
            &&& after.len() == document.buffers.len() <==> step == Ok::<
                BufferStepModel,
                ErrorModel,
            >(BufferStepModel::Done)
            &&& after.len() < document.buffers.len() ==> (match document.buffers[after.len() as int] {
                Some(uri) => match web_url::join_outcome(url, uri) {
                    Ok(source) => step == Ok::<BufferStepModel, ErrorModel>(
                        BufferStepModel::Fetch(source),
                    ),
                    Err(error) => step == Err::<BufferStepModel, ErrorModel>(error),
                },
                None => step == Err::<BufferStepModel, ErrorModel>(
                    ErrorModel::Availability {
                        url: url.text,
                        detail: "buffer "@ + text::decimal(after.len())
                            + " has no `uri`; only buffer 0 may be the binary chunk"@,
                    },
                ),
            })
        }),
{
    reveal_with_fuel(next_buffer, 2);
    if loaded.len() == 0 {
        assert(loaded.push(binary) =~= seq![binary]);
    }
}

/// A defect of a container or of a view is told in numbers: what was claimed, and what is
/// there.
pub proof fn law_defects_give_the_numbers(
    bytes: Seq<u8>,
    url: UrlParts,
    header: BufferViewHeader,
    index: nat,
    buffers: Seq<Seq<u8>>,
)
    ensures
        chunks(bytes, url) matches Err(ErrorModel::Availability { detail, .. }) ==> {
            let claimed = 24 + bytes[8] + 256 * bytes[9] + 65536 * bytes[10] + 16777216 * bytes[11]
                + bytes[16] + 256 * bytes[17] + 65536 * bytes[18] + 16777216 * bytes[19];
            &&& bytes.len() < 24 ==> detail == "binary subtree is "@ + text::decimal(bytes.len())
                + " bytes, shorter than the 24-byte header"@
            &&& bytes.len() >= 24 && claimed <= usize::MAX ==> detail == "header claims "@
                + text::decimal(claimed as nat) + " bytes but the document is "@ + text::decimal(
                bytes.len(),
            ) + " bytes"@
        },
        view_bytes(header, index, buffers) matches Err(detail) ==> {
            let end = header.byte_offset + header.byte_length;
            &&& header.buffer >= buffers.len() ==> detail == "bufferView "@ + text::decimal(index)
                + " refers to missing buffer "@ + text::decimal(header.buffer as nat)
            &&& header.buffer < buffers.len() && end <= usize::MAX ==> detail == "bufferView "@
                + text::decimal(index) + " needs bytes "@ + text::decimal(
                header.byte_offset as nat,
            ) + ".."@ + text::decimal(end as nat) + " but buffer "@ + text::decimal(
                header.buffer as nat,
            ) + " is "@ + text::decimal(buffers[header.buffer as int].len()) + " bytes"@
        },
{
}

/// A document is read in full: each of its fields counts for what it holds.
pub proof fn law_documents_are_read_in_full(document: SubtreeDocument, i: int)
    ensures
        document@.buffers.len() == document.buffers@.len(),
        0 <= i < document.buffers@.len() ==> (match document.buffers@[i].uri {
            Some(uri) => document@.buffers[i] == Some(uri@),
            None => document@.buffers[i] is None,
        }),
        document@.buffer_views == document.buffer_views@,
        document@.tile_availability == document.tile_availability@,
        document@.child_subtree_availability == document.child_subtree_availability@,
        document.content_availability is None <==> document@.content_availability is None,
        document.content_availability matches Some(entries) ==> document@.content_availability->0
            == entries@.map_values(|value: Json| value@),
        document.content_uri is None <==> document@.content_uri is None,
        document.content_uri matches Some(uri) ==> document@.content_uri == Some(uri@),
        document.subtree_uri is None <==> document@.subtree_uri is None,
        document.subtree_uri matches Some(uri) ==> document@.subtree_uri == Some(uri@),
        document.extensions is None <==> document@.extensions is None,
        document.extensions matches Some(entries) ==> document@.extensions->0
            == entries@.map_values(|entry: (String, Json)| (entry.0@, entry.1@)),
{
}

/// A bitstream that does not fit is told in numbers: how many bytes there are, and how many
/// there should be.
pub proof fn law_misfits_give_the_numbers(
    decoded: Seq<u8>,
    message: Seq<char>,
    index: usize,
    bits: nat,
    views: Seq<Seq<u8>>,
    what: Seq<char>,
)
    ensures
        decoded_bits(Err(message), bits, what) == Err::<AvailabilityModel, Seq<char>>(
            what + ": `bitstream` is not valid base64 ("@ + message + ")"@,
        ),
        decoded_bits(Ok(decoded), bits, what) matches Err(detail) ==> detail == what
            + ": bitstream is "@ + text::decimal(decoded.len()) + " bytes but "@ + text::decimal(
            (bits + 7) / 8,
        ) + " are required for "@ + text::decimal(bits) + " bits"@,
        view_bits(index, bits, views, what) matches Err(detail) ==> detail == (if index
            >= views.len() {
            what + ": bufferView "@ + text::decimal(index as nat) + " does not exist"@
        } else {
            what + ": bufferView "@ + text::decimal(index as nat) + " is "@ + text::decimal(
                views[index as int].len(),
            ) + " bytes but "@ + text::decimal((bits + 7) / 8) + " are required"@
        }),
{
}

} // verus!
