//! Phase one: work out every file a tileset needs.
//!
//! Discovery is two crawls that run back to back.
//!
//! **Tileset documents.** A breadth-first walk of *tileset* documents: the entry
//! `tileset.json`, plus every `content.uri` that ends in `.json` (an external
//! tileset). Each round fetches and parses the whole frontier in parallel; a
//! `visited` set makes reference cycles harmless.
//!
//! **Implicit tiling.** An implicitly tiled tile does not list children; it
//! points at subtree files that hold availability bitstreams. Those are walked
//! in their own breadth-first crawl: expand a subtree, collect the content
//! URLs it marks available, queue the child subtrees it marks present, one
//! parallel round per subtree level. `availableLevels` bounds the descent, so a
//! malformed bitstream cannot spin forever.
//!
//! Discovery is **fail-fast**: a broken external tileset or a subtree that
//! cannot be decoded means the dataset cannot be described, so there is nothing
//! useful to download. The download phase, by contrast, tolerates individual
//! failures.
//!
//! A [`Crawl`] makes every decision; fetching and parsing is left to whoever drives
//! it. The driver asks for a round of documents (later: of subtrees), fetches them,
//! hands back what they reference, and repeats until the crawl has finished.

use vstd::hash_set::StringHashSet;
use vstd::prelude::*;

use crate::collector;
use crate::collector::{Collector, CollectorModel, ItemModel};
use crate::error;
use crate::error::{Error, ErrorModel, Result};
use crate::implicit;
use crate::implicit::{
    ChildModel, Coordinates, ExpansionModel, ImplicitTiling, SubtreeExpansion, TilingModel,
};
use crate::local_path;
use crate::path_util;
use crate::plan;
use crate::subtree;
use crate::subtree::{LoadedBuffers, SubtreeDocument};
use crate::tileset;
use crate::tileset::{
    ImplicitSourceModel, ReferenceKind, ReferenceModel, Scan, ScanModel, Tileset,
};
use crate::web_url;
use crate::web_url::{Url, UrlParts};

pub use crate::collector::{DownloadItem, ItemKind, MAX_ITEMS};

verus! {

/// The complete plan for mirroring a tileset.
#[derive(Debug, Clone)]
pub struct Discovery {
    /// The normalised entry URL the crawl started from.
    pub entry: Url,
    /// Every file, sorted by local path.
    pub items: Vec<DownloadItem>,
    /// How many external tileset documents were found.
    pub external_tilesets: usize,
    /// How many tiles carried the implicit tiling extension.
    pub implicit_tilesets: usize,
    /// How many subtree documents were found.
    pub subtree_files: usize,
    /// How many subtree buffers were found.
    pub buffer_files: usize,
}

impl Discovery {
    /// Number of files in the plan.
    pub fn len(&self) -> (len: usize)
        ensures
            len == self.items@.len(),
    {
        self.items.len()
    }

    /// Whether the plan is empty.
    pub fn is_empty(&self) -> (empty: bool)
        ensures
            empty == (self.items@.len() == 0),
    {
        self.items.len() == 0
    }
}

/// Knobs for discovery.
#[derive(Debug, Clone)]
pub struct DiscoveryOptions {
    /// Draw a spinner while crawling.
    pub progress: bool,
}

impl Default for DiscoveryOptions {
    fn default() -> (options: DiscoveryOptions)
        ensures
            options.progress,
    {
        DiscoveryOptions { progress: true }
    }
}

/// One subtree to fetch: which implicit tileset it belongs to and where it is.
#[derive(Debug)]
pub struct SubtreeJob {
    /// Which of the crawl's implicit tilesets.
    tiling: usize,
    /// Global coordinates of the subtree root.
    coordinates: Coordinates,
    /// Where to fetch it, already resolved.
    url: Url,
}

/// What a [`SubtreeJob`] stands for.
#[verifier::ext_equal]
pub struct JobModel {
    pub tiling: nat,
    pub coordinates: Coordinates,
    pub url: UrlParts,
}

impl View for SubtreeJob {
    type V = JobModel;

    closed spec fn view(&self) -> JobModel {
        JobModel { tiling: self.tiling as nat, coordinates: self.coordinates, url: self.url@ }
    }
}

impl SubtreeJob {
    /// Which of the implicit tilesets the subtree belongs to, by the order in which
    /// the crawl met them.
    pub fn tiling(&self) -> (tiling: usize)
        ensures
            tiling == self@.tiling,
    {
        self.tiling
    }

    /// Where to fetch the subtree.
    pub fn url(&self) -> (url: &Url)
        ensures
            url@ == self@.url,
    {
        &self.url
    }

    /// Global coordinates of the subtree root.
    pub fn coordinates(&self) -> (coordinates: Coordinates)
        ensures
            coordinates == self@.coordinates,
    {
        self.coordinates
    }
}

/// What a list of jobs stands for.
pub open spec fn job_views(jobs: Seq<SubtreeJob>) -> Seq<JobModel> {
    jobs.map_values(|job: SubtreeJob| job@)
}

/// What a list of implicit tilesets stands for.
pub open spec fn tiling_views(tilings: Seq<ImplicitTiling>) -> Seq<TilingModel> {
    tilings.map_values(|tiling: ImplicitTiling| tiling@)
}

/// What a [`Crawl`] stands for.
#[verifier::ext_equal]
pub struct CrawlModel {
    /// The URL the crawl started from.
    pub entry: UrlParts,
    /// The plan so far.
    pub collector: CollectorModel,
    /// The tileset documents that were queued at some time.
    pub visited: Set<Seq<char>>,
    /// The tileset documents of the next round.
    pub frontier: Seq<UrlParts>,
    /// The implicit tilesets that were found.
    pub tilings: Seq<TilingModel>,
    /// Whether the root subtrees were queued.
    pub expanding: bool,
    /// The subtrees of the next round.
    pub queue: Seq<JobModel>,
    /// How many external tileset documents were found.
    pub external_tilesets: usize,
    /// How many implicit tilesets were met.
    pub implicit_tilesets: usize,
    /// How many subtree documents were found.
    pub subtree_files: usize,
    /// How many subtree buffers were found.
    pub buffer_files: usize,
}

/// The crawl of one tileset.
pub struct Crawl {
    entry: Url,
    collector: Collector,
    visited: StringHashSet,
    frontier: Vec<Url>,
    tilings: Vec<ImplicitTiling>,
    expanding: bool,
    queue: Vec<SubtreeJob>,
    external_tilesets: usize,
    implicit_tilesets: usize,
    subtree_files: usize,
    buffer_files: usize,
}

impl View for Crawl {
    type V = CrawlModel;

    closed spec fn view(&self) -> CrawlModel {
        CrawlModel {
            entry: self.entry@,
            collector: self.collector@,
            visited: self.visited@,
            frontier: subtree::url_views(self.frontier@),
            tilings: tiling_views(self.tilings@),
            expanding: self.expanding,
            queue: job_views(self.queue@),
            external_tilesets: self.external_tilesets,
            implicit_tilesets: self.implicit_tilesets,
            subtree_files: self.subtree_files,
            buffer_files: self.buffer_files,
        }
    }
}

/// What a URL adds to the count of the files of its kind: one, where it was not met
/// before.
pub open spec fn newly_met(c: CollectorModel, url: UrlParts) -> int {
    if c.seen.contains(url.text) {
        0
    } else {
        1
    }
}

/// A crawl with another plan.
pub open spec fn with_plan(m: CrawlModel, collector: CollectorModel) -> CrawlModel {
    CrawlModel { collector, ..m }
}

/// A crawl at its start: the entry document is part of the tileset too, so it is both
/// fetched and saved. Without this the mirror would be unusable offline.
pub open spec fn started(entry: UrlParts, base: UrlParts) -> core::result::Result<
    CrawlModel,
    ErrorModel,
> {
    let empty = CollectorModel {
        base,
        items: Seq::empty(),
        seen: Set::empty(),
        owners: Map::empty(),
    };
    let (collector, result) = collector::added(empty, entry, ItemKind::Tileset);
    match result {
        Err(error) => Err(error),
        Ok(()) => Ok(
            CrawlModel {
                entry,
                collector,
                visited: Set::empty().insert(entry.text),
                frontier: seq![entry],
                tilings: Seq::empty(),
                expanding: false,
                queue: Seq::empty(),
                external_tilesets: 0,
                implicit_tilesets: 0,
                subtree_files: 0,
                buffer_files: 0,
            },
        ),
    }
}

/// What one reference of a document does to the crawl. Every URI is relative to the
/// document that named it. An external tileset is queued and counted where it is met
/// for the first time.
pub open spec fn followed(m: CrawlModel, document: UrlParts, reference: ReferenceModel) -> (
    CrawlModel,
    core::result::Result<(), ErrorModel>,
) {
    match web_url::join_outcome(document, reference.uri) {
        Err(error) => (m, Err(error)),
        Ok(url) => match reference.kind {
            ReferenceKind::Content => {
                let (plan, result) = collector::added(m.collector, url, ItemKind::Content);
                (with_plan(m, plan), result)
            },
            ReferenceKind::Tileset => {
                let (plan, result) = collector::added(m.collector, url, ItemKind::Tileset);
                let planned = with_plan(m, plan);
                if result is Ok && !m.visited.contains(url.text) {
                    (
                        CrawlModel {
                            visited: m.visited.insert(url.text),
                            frontier: m.frontier.push(url),
                            external_tilesets: (m.external_tilesets + 1) as usize,
                            ..planned
                        },
                        result,
                    )
                } else {
                    (planned, result)
                }
            },
        },
    }
}

/// What the first `n` references of a document do to the crawl; the first that
/// fails ends it.
pub open spec fn followed_all(
    m: CrawlModel,
    document: UrlParts,
    references: Seq<ReferenceModel>,
    n: nat,
) -> (CrawlModel, core::result::Result<(), ErrorModel>)
    decreases n,
{
    if n == 0 {
        (m, Ok(()))
    } else {
        let (before, result) = followed_all(m, document, references, (n - 1) as nat);
        if result is Ok {
            followed(before, document, references[n - 1])
        } else {
            (before, result)
        }
    }
}

/// What the first `n` implicit tiling declarations of a document do to the crawl.
pub open spec fn declared_all(
    m: CrawlModel,
    document: UrlParts,
    sources: Seq<ImplicitSourceModel>,
    n: nat,
) -> (CrawlModel, core::result::Result<(), ErrorModel>)
    decreases n,
{
    if n == 0 {
        (m, Ok(()))
    } else {
        let (before, result) = declared_all(m, document, sources, (n - 1) as nat);
        if result is Ok {
            match implicit::declared_tiling(document, sources[n - 1]) {
                Err(error) => (before, Err(error)),
                Ok(tiling) => (
                    CrawlModel {
                        tilings: before.tilings.push(tiling),
                        implicit_tilesets: (before.implicit_tilesets + 1) as usize,
                        ..before
                    },
                    Ok(()),
                ),
            }
        } else {
            (before, result)
        }
    }
}

/// What a scanned document does to the crawl.
pub open spec fn absorbed_scan(m: CrawlModel, document: UrlParts, scan: ScanModel) -> (
    CrawlModel,
    core::result::Result<(), ErrorModel>,
) {
    let (after, result) = followed_all(m, document, scan.references, scan.references.len());
    if result is Ok {
        declared_all(after, document, scan.implicits, scan.implicits.len())
    } else {
        (after, result)
    }
}

/// The scan of a fetched tileset document. A tileset without a root tile is empty
/// or malformed.
pub open spec fn scanned(root: Option<tileset::TileModel>, url: UrlParts) -> core::result::Result<
    ScanModel,
    ErrorModel,
> {
    if root is None {
        Err(ErrorModel::MissingRoot { url: url.text })
    } else {
        Ok(tileset::document_scan(root))
    }
}

/// Scans a fetched tileset document.
pub fn scan_document(url: &Url, tileset: &Tileset) -> (scan: Result<Scan>)
    ensures
        error::outcome(scan) == scanned(tileset::root_of(*tileset), url@),
{
    if tileset.root.is_none() {
        return Err(Error::MissingRoot { url: url.as_str().to_owned() });
    }
    Ok(tileset.scan())
}

proof fn lemma_failed_reference(
    m: CrawlModel,
    document: UrlParts,
    references: Seq<ReferenceModel>,
    n: nat,
    total: nat,
)
    requires
        n <= total,
        followed_all(m, document, references, n).1 is Err,
    ensures
        followed_all(m, document, references, total) == followed_all(m, document, references, n),
    decreases total - n,
{
    if n < total {
        lemma_failed_reference(m, document, references, n, (total - 1) as nat);
    }
}

proof fn lemma_failed_declaration(
    m: CrawlModel,
    document: UrlParts,
    sources: Seq<ImplicitSourceModel>,
    n: nat,
    total: nat,
)
    requires
        n <= total,
        declared_all(m, document, sources, n).1 is Err,
    ensures
        declared_all(m, document, sources, total) == declared_all(m, document, sources, n),
    decreases total - n,
{
    if n < total {
        lemma_failed_declaration(m, document, sources, n, (total - 1) as nat);
    }
}

/// References never lower the counters, and raise them by at most one each.
proof fn lemma_counted(
    m: CrawlModel,
    document: UrlParts,
    references: Seq<ReferenceModel>,
    n: nat,
)
    requires
        m.external_tilesets + n <= usize::MAX,
    ensures
        ({
            let after = followed_all(m, document, references, n).0;
            &&& m.external_tilesets <= after.external_tilesets <= m.external_tilesets + n
            &&& after.implicit_tilesets == m.implicit_tilesets
        }),
    decreases n,
{
    if n > 0 {
        lemma_counted(m, document, references, (n - 1) as nat);
    }
}

impl Crawl {
    /// Starts a crawl at an entry document.
    pub fn new(entry: &Url) -> (crawl: Result<Crawl>)
        requires
            path_util::folder_fits(entry@),
        ensures
            error::outcome(crawl) == started(entry@, path_util::folder_of(entry@)),
    {
        let base = path_util::base_dir(entry);
        let mut collector = Collector::new(base);
        collector.add(entry.duplicate(), ItemKind::Tileset)?;
        let mut visited = StringHashSet::new();
        visited.insert(entry.as_str().to_owned());
        let mut frontier: Vec<Url> = Vec::new();
        frontier.push(entry.duplicate());
        let crawl = Crawl {
            entry: entry.duplicate(),
            collector,
            visited,
            frontier,
            tilings: Vec::new(),
            expanding: false,
            queue: Vec::new(),
            external_tilesets: 0,
            implicit_tilesets: 0,
            subtree_files: 0,
            buffer_files: 0,
        };
        proof {
            assert(subtree::url_views(crawl.frontier@) =~= seq![entry@]);
            assert(tiling_views(crawl.tilings@) =~= Seq::<TilingModel>::empty());
            assert(job_views(crawl.queue@) =~= Seq::<JobModel>::empty());
        }
        Ok(crawl)
    }

    /// The plan so far, in the order of discovery.
    pub fn items(&self) -> (items: &Vec<DownloadItem>)
        ensures
            collector::item_views(items@) == self@.collector.items,
    {
        self.collector.items()
    }

    /// How many documents the next round has.
    pub fn pending_documents(&self) -> (pending: usize)
        ensures
            pending == self@.frontier.len(),
    {
        self.frontier.len()
    }

    /// How many subtrees the next round has.
    pub fn pending_subtrees(&self) -> (pending: usize)
        ensures
            pending == self@.queue.len(),
    {
        self.queue.len()
    }

    /// Hands out the tileset documents of the next round.
    fn take_documents(&mut self) -> (documents: Vec<Url>)
        ensures
            subtree::url_views(documents@) == old(self)@.frontier,
            final(self)@ == (CrawlModel { frontier: Seq::empty(), ..old(self)@ }),
    {
        let mut documents: Vec<Url> = Vec::new();
        documents.append(&mut self.frontier);
        assert(subtree::url_views(documents@) =~= old(self)@.frontier);
        assert(self@ =~= (CrawlModel { frontier: Seq::empty(), ..old(self)@ }));
        documents
    }

    fn follow(&mut self, document: &Url, reference: &tileset::Reference) -> (out: Result<()>)
        requires
            old(self)@.external_tilesets < usize::MAX,
        ensures
            (final(self)@, error::done(out)) == followed(old(self)@, document@, reference@),
    {
        let ghost start = self@;
        let url = path_util::resolve(document, reference.uri.as_str())?;
        let ghost parts = url@;
        match reference.kind {
            ReferenceKind::Tileset => {
                self.collector.add(url.duplicate(), ItemKind::Tileset)?;
                if self.visited.insert(url.as_str().to_owned()) {
                    self.external_tilesets = self.external_tilesets + 1;
                    self.frontier.push(url);
                    assert(self@.frontier =~= start.frontier.push(parts));
                } else {
                    assert(start.visited.insert(parts.text) =~= start.visited);
                }
                Ok(())
            },
            ReferenceKind::Content => self.collector.add(url, ItemKind::Content),
        }
    }

    /// Takes in what a tileset document references.
    pub fn absorb_scan(&mut self, document: &Url, scan: &Scan) -> (out: Result<()>)
        requires
            old(self)@.external_tilesets + scan@.references.len() <= usize::MAX,
            old(self)@.implicit_tilesets + scan@.implicits.len() <= usize::MAX,
        ensures
            (final(self)@, error::done(out)) == absorbed_scan(old(self)@, document@, scan@),
    {
        let ghost start = self@;
        let ghost references = scan@.references;
        let ghost sources = scan@.implicits;
        let mut i: usize = 0;
        while i < scan.references.len()
            invariant
                i <= scan.references.len(),
                start == old(self)@,
                references == scan@.references,
                start.external_tilesets + references.len() <= usize::MAX,
                (self@, Ok::<(), ErrorModel>(())) == followed_all(
                    start,
                    document@,
                    references,
                    i as nat,
                ),
            decreases scan.references.len() - i,
        {
            proof {
                lemma_counted(start, document@, references, i as nat);
                assert(references[i as int] == scan.references@[i as int]@);
            }
            let result = self.follow(document, &scan.references[i]);
            if result.is_err() {
                proof {
                    lemma_failed_reference(
                        start,
                        document@,
                        references,
                        (i + 1) as nat,
                        references.len(),
                    );
                }
                return result;
            }
            i += 1;
        }
        let ghost middle = self@;
        proof {
            lemma_counted(start, document@, references, references.len());
        }
        let mut k: usize = 0;
        while k < scan.implicits.len()
            invariant
                k <= scan.implicits.len(),
                start == old(self)@,
                references == scan@.references,
                sources == scan@.implicits,
                (middle, Ok::<(), ErrorModel>(())) == followed_all(
                    start,
                    document@,
                    references,
                    references.len(),
                ),
                middle.implicit_tilesets + sources.len() <= usize::MAX,
                (self@, Ok::<(), ErrorModel>(())) == declared_all(
                    middle,
                    document@,
                    sources,
                    k as nat,
                ),
                self@.implicit_tilesets == middle.implicit_tilesets + k,
            decreases scan.implicits.len() - k,
        {
            let ghost before = self@;
            assert(sources[k as int] == scan.implicits@[k as int]@);
            match ImplicitTiling::parse(document, &scan.implicits[k]) {
                Ok(tiling) => {
                    let ghost model = tiling@;
                    self.tilings.push(tiling);
                    self.implicit_tilesets = self.implicit_tilesets + 1;
                    assert(self@.tilings =~= before.tilings.push(model));
                },
                Err(error) => {
                    proof {
                        lemma_failed_declaration(
                            middle,
                            document@,
                            sources,
                            (k + 1) as nat,
                            sources.len(),
                        );
                    }
                    return Err(error);
                },
            }
            k += 1;
        }
        Ok(())
    }
}

/// The root of every implicit tileset.
pub open spec fn root_coordinates() -> Coordinates {
    Coordinates { level: 0, x: 0, y: 0, z: 0 }
}

/// The jobs for the root subtrees of the first `n` implicit tilesets, or the error of
/// the first that cannot be resolved.
pub open spec fn root_jobs(tilings: Seq<TilingModel>, n: nat) -> core::result::Result<
    Seq<JobModel>,
    ErrorModel,
>
    decreases n,
{
    if n == 0 {
        Ok(Seq::empty())
    } else {
        match root_jobs(tilings, (n - 1) as nat) {
            Err(error) => Err(error),
            Ok(jobs) => match web_url::join_outcome(
                tilings[n - 1].base,
                implicit::substituted(tilings[n - 1].subtree_uri_template, root_coordinates()),
            ) {
                Err(error) => Err(error),
                Ok(url) => Ok(
                    jobs.push(
                        JobModel {
                            tiling: (n - 1) as nat,
                            coordinates: root_coordinates(),
                            url,
                        },
                    ),
                ),
            },
        }
    }
}

/// A crawl whose root subtrees were queued.
pub open spec fn rooted(m: CrawlModel, jobs: Seq<JobModel>) -> CrawlModel {
    CrawlModel { expanding: true, queue: m.queue + jobs, ..m }
}

/// What handing out the first `n` subtrees of a round does: each is a file of the
/// plan.
pub open spec fn announced(m: CrawlModel, jobs: Seq<JobModel>, n: nat) -> (
    CrawlModel,
    core::result::Result<(), ErrorModel>,
)
    decreases n,
{
    if n == 0 {
        (m, Ok(()))
    } else {
        let (before, result) = announced(m, jobs, (n - 1) as nat);
        if result is Ok {
            let (plan, added) = collector::added(
                before.collector,
                jobs[n - 1].url,
                ItemKind::Subtree,
            );
            if added is Ok {
                (
                    CrawlModel {
                        subtree_files: (before.subtree_files + newly_met(
                            before.collector,
                            jobs[n - 1].url,
                        )) as usize,
                        ..with_plan(before, plan)
                    },
                    added,
                )
            } else {
                (with_plan(before, plan), added)
            }
        } else {
            (before, result)
        }
    }
}

/// What recording the first `n` buffers of an expansion does.
pub open spec fn buffers_added(m: CrawlModel, urls: Seq<UrlParts>, n: nat) -> (
    CrawlModel,
    core::result::Result<(), ErrorModel>,
)
    decreases n,
{
    if n == 0 {
        (m, Ok(()))
    } else {
        let (before, result) = buffers_added(m, urls, (n - 1) as nat);
        if result is Ok {
            let (plan, added) = collector::added(before.collector, urls[n - 1], ItemKind::Buffer);
            if added is Ok {
                (
                    CrawlModel {
                        buffer_files: (before.buffer_files + newly_met(
                            before.collector,
                            urls[n - 1],
                        )) as usize,
                        ..with_plan(before, plan)
                    },
                    added,
                )
            } else {
                (with_plan(before, plan), added)
            }
        } else {
            (before, result)
        }
    }
}

/// What recording the first `n` contents of an expansion does.
pub open spec fn contents_added(m: CrawlModel, urls: Seq<UrlParts>, n: nat) -> (
    CrawlModel,
    core::result::Result<(), ErrorModel>,
)
    decreases n,
{
    if n == 0 {
        (m, Ok(()))
    } else {
        let (before, result) = contents_added(m, urls, (n - 1) as nat);
        if result is Ok {
            let (plan, added) = collector::added(before.collector, urls[n - 1], ItemKind::Content);
            (with_plan(before, plan), added)
        } else {
            (before, result)
        }
    }
}

/// The jobs for the child subtrees of an expansion. Children carry the URL they were
/// reached by, so a subtree that overrides the template keeps working.
pub open spec fn child_jobs(tiling: nat, children: Seq<ChildModel>) -> Seq<JobModel> {
    children.map_values(
        |child: ChildModel|
            JobModel { tiling, coordinates: child.coordinates, url: child.url },
    )
}

/// What an expanded subtree does to the crawl.
pub open spec fn absorbed_expansion(m: CrawlModel, job: JobModel, expansion: ExpansionModel) -> (
    CrawlModel,
    core::result::Result<(), ErrorModel>,
) {
    let buffers = expansion.external_buffers;
    let contents = expansion.content_urls;
    let (first, fetched) = buffers_added(m, buffers, buffers.len());
    if fetched is Err {
        (first, fetched)
    } else {
        let (second, recorded) = contents_added(first, contents, contents.len());
        if recorded is Err {
            (second, recorded)
        } else {
            (
                CrawlModel {
                    queue: second.queue + child_jobs(job.tiling, expansion.child_subtrees),
                    ..second
                },
                Ok(()),
            )
        }
    }
}

proof fn lemma_failed_root(tilings: Seq<TilingModel>, n: nat, total: nat)
    requires
        n <= total,
        root_jobs(tilings, n) is Err,
    ensures
        root_jobs(tilings, total) == root_jobs(tilings, n),
    decreases total - n,
{
    if n < total {
        lemma_failed_root(tilings, n, (total - 1) as nat);
    }
}

proof fn lemma_failed_announcement(m: CrawlModel, jobs: Seq<JobModel>, n: nat, total: nat)
    requires
        n <= total,
        announced(m, jobs, n).1 is Err,
    ensures
        announced(m, jobs, total) == announced(m, jobs, n),
    decreases total - n,
{
    if n < total {
        lemma_failed_announcement(m, jobs, n, (total - 1) as nat);
    }
}

proof fn lemma_failed_buffer(m: CrawlModel, urls: Seq<UrlParts>, n: nat, total: nat)
    requires
        n <= total,
        buffers_added(m, urls, n).1 is Err,
    ensures
        buffers_added(m, urls, total) == buffers_added(m, urls, n),
    decreases total - n,
{
    if n < total {
        lemma_failed_buffer(m, urls, n, (total - 1) as nat);
    }
}

proof fn lemma_failed_content(m: CrawlModel, urls: Seq<UrlParts>, n: nat, total: nat)
    requires
        n <= total,
        contents_added(m, urls, n).1 is Err,
    ensures
        contents_added(m, urls, total) == contents_added(m, urls, n),
    decreases total - n,
{
    if n < total {
        lemma_failed_content(m, urls, n, (total - 1) as nat);
    }
}

/// What has to be fetched in a round.
#[derive(Debug)]
pub enum Round {
    /// Tileset documents.
    Documents(Vec<Url>),
    /// Subtree documents.
    Subtrees(Vec<SubtreeJob>),
    /// Nothing: the plan is complete.
    Finished,
}

/// What a [`Round`] stands for.
#[verifier::ext_equal]
pub enum RoundModel {
    Documents(Seq<UrlParts>),
    Subtrees(Seq<JobModel>),
    Finished,
}

impl View for Round {
    type V = RoundModel;

    open spec fn view(&self) -> RoundModel {
        match self {
            Round::Documents(urls) => RoundModel::Documents(subtree::url_views(urls@)),
            Round::Subtrees(jobs) => RoundModel::Subtrees(job_views(jobs@)),
            Round::Finished => RoundModel::Finished,
        }
    }
}

/// The next round of subtrees, and the crawl once it was handed out.
pub open spec fn subtree_round(m: CrawlModel) -> (
    CrawlModel,
    core::result::Result<RoundModel, ErrorModel>,
) {
    if m.queue.len() == 0 {
        (m, Ok(RoundModel::Finished))
    } else {
        let emptied = CrawlModel { queue: Seq::empty(), ..m };
        match announced(emptied, m.queue, m.queue.len()) {
            (after, Ok(_)) => (after, Ok(RoundModel::Subtrees(m.queue))),
            (after, Err(error)) => (after, Err(error)),
        }
    }
}

/// The next round, and the crawl once it was handed out. Tileset documents come
/// first; the subtrees follow once no document is left.
pub open spec fn next_round_of(m: CrawlModel) -> (
    CrawlModel,
    core::result::Result<RoundModel, ErrorModel>,
) {
    if m.frontier.len() > 0 {
        (
            CrawlModel { frontier: Seq::empty(), ..m },
            Ok(RoundModel::Documents(m.frontier)),
        )
    } else if m.expanding {
        subtree_round(m)
    } else {
        match root_jobs(m.tilings, m.tilings.len()) {
            Ok(jobs) => subtree_round(rooted(m, jobs)),
            Err(error) => (m, Err(error)),
        }
    }
}

/// A job that one of the crawl's implicit tilesets can expand.
pub open spec fn is_job_of(m: CrawlModel, job: JobModel) -> bool {
    &&& job.tiling < m.tilings.len()
    &&& job.coordinates.level < implicit::MAX_LEVELS
}

/// Every counter can take `more` and still fits.
pub open spec fn has_room_for(m: CrawlModel, more: nat) -> bool {
    &&& m.external_tilesets + more <= usize::MAX
    &&& m.implicit_tilesets + more <= usize::MAX
    &&& m.buffer_files + more <= usize::MAX
    &&& m.subtree_files + m.queue.len() + m.tilings.len() + more <= usize::MAX
}

impl Crawl {
    /// Whether every counter can take `more` references and still fits, whatever
    /// they are.
    pub fn has_room(&self, more: usize) -> (room: bool)
        ensures
            room == has_room_for(self@, more as nat),
    {
        let subtrees = match self.subtree_files.checked_add(self.queue.len()) {
            Some(handed_out) => handed_out.checked_add(self.tilings.len()),
            None => None,
        };
        match subtrees {
            Some(count) => count <= usize::MAX - more && self.external_tilesets <= usize::MAX
                - more && self.implicit_tilesets <= usize::MAX - more && self.buffer_files
                <= usize::MAX - more,
            None => false,
        }
    }

    /// Queues the root subtree of every implicit tileset.
    fn queue_roots(&mut self) -> (out: Result<()>)
        ensures
            match root_jobs(old(self)@.tilings, old(self)@.tilings.len()) {
                Ok(jobs) => out is Ok && final(self)@ == rooted(old(self)@, jobs),
                Err(error) => error::done(out) == Err::<(), ErrorModel>(error) && final(self)@
                    == old(self)@,
            },
    {
        let ghost start = self@;
        let mut jobs: Vec<SubtreeJob> = Vec::new();
        let mut i: usize = 0;
        assert(job_views(jobs@) =~= Seq::<JobModel>::empty());
        while i < self.tilings.len()
            invariant
                i <= self.tilings.len(),
                self@ == start,
                start == old(self)@,
                root_jobs(start.tilings, i as nat) == Ok::<Seq<JobModel>, ErrorModel>(
                    job_views(jobs@),
                ),
            decreases self.tilings.len() - i,
        {
            let ghost before = job_views(jobs@);
            let tiling = &self.tilings[i];
            assert(start.tilings[i as int] == tiling@);
            let coordinates = tiling.root();
            match tiling.subtree_url(coordinates) {
                Ok(url) => {
                    let job = SubtreeJob { tiling: i, coordinates, url };
                    let ghost model = job@;
                    jobs.push(job);
                    assert(job_views(jobs@) =~= before.push(model));
                },
                Err(error) => {
                    proof {
                        lemma_failed_root(start.tilings, (i + 1) as nat, start.tilings.len());
                    }
                    return Err(error);
                },
            }
            i += 1;
        }
        self.queue.append(&mut jobs);
        self.expanding = true;
        proof {
            let queued = root_jobs(start.tilings, start.tilings.len())->Ok_0;
            assert(self@.queue =~= start.queue + queued);
        }
        Ok(())
    }

    /// Hands out the subtrees of the next round, each recorded as a file of the plan.
    fn take_subtrees(&mut self) -> (out: Result<Vec<SubtreeJob>>)
        requires
            old(self)@.subtree_files + old(self)@.queue.len() <= usize::MAX,
        ensures
            ({
                let emptied = CrawlModel { queue: Seq::empty(), ..old(self)@ };
                let jobs = old(self)@.queue;
                let (after, result) = announced(emptied, jobs, jobs.len());
                &&& final(self)@ == after
                &&& match out {
                    Ok(batch) => result is Ok && job_views(batch@) == jobs,
                    Err(error) => result == Err::<(), ErrorModel>(error@),
                }
            }),
    {
        let ghost jobs = self@.queue;
        let mut batch: Vec<SubtreeJob> = Vec::new();
        batch.append(&mut self.queue);
        let ghost emptied = CrawlModel { queue: Seq::empty(), ..old(self)@ };
        proof {
            assert(job_views(batch@) =~= jobs);
            assert(self@ =~= emptied);
        }
        let mut i: usize = 0;
        while i < batch.len()
            invariant
                i <= batch.len(),
                job_views(batch@) == jobs,
                jobs == old(self)@.queue,
                emptied == (CrawlModel { queue: Seq::empty(), ..old(self)@ }),
                (self@, Ok::<(), ErrorModel>(())) == announced(emptied, jobs, i as nat),
                self@.subtree_files <= emptied.subtree_files + i,
                emptied.subtree_files + jobs.len() <= usize::MAX,
            decreases batch.len() - i,
        {
            assert(jobs[i as int] == batch@[i as int]@);
            let url = batch[i].url.duplicate();
            let met = self.collector.holds(&url);
            match self.collector.add(url, ItemKind::Subtree) {
                Ok(()) => {
                    if !met {
                        self.subtree_files = self.subtree_files + 1;
                    }
                },
                Err(error) => {
                    proof {
                        lemma_failed_announcement(
                            emptied,
                            jobs,
                            (i + 1) as nat,
                            jobs.len(),
                        );
                    }
                    return Err(error);
                },
            }
            i += 1;
        }
        Ok(batch)
    }

    /// Hands out the next round. Everything of a round has to be taken in before the
    /// next is asked for.
    pub fn next_round(&mut self) -> (out: Result<Round>)
        requires
            old(self)@.subtree_files + old(self)@.queue.len() + old(self)@.tilings.len()
                <= usize::MAX,
        ensures
            (final(self)@, error::outcome(out)) == next_round_of(old(self)@),
    {
        if self.frontier.len() > 0 {
            return Ok(Round::Documents(self.take_documents()));
        }
        if !self.expanding {
            proof {
                lemma_root_jobs(self@.tilings, self@.tilings.len());
            }
            self.queue_roots()?;
        }
        if self.queue.len() == 0 {
            return Ok(Round::Finished);
        }
        let jobs = self.take_subtrees()?;
        Ok(Round::Subtrees(jobs))
    }

    /// Whether a job was handed out by a crawl with at least as many implicit
    /// tilesets, and can be expanded by this one.
    pub fn knows(&self, job: &SubtreeJob) -> (known: bool)
        ensures
            known == is_job_of(self@, job@),
    {
        job.tiling < self.tilings.len() && job.coordinates.level < implicit::MAX_LEVELS
    }

    /// Decodes the document of one subtree and enumerates what it makes available.
    pub fn expand(
        &self,
        job: &SubtreeJob,
        document: &SubtreeDocument,
        loaded: LoadedBuffers,
    ) -> (out: Result<SubtreeExpansion>)
        requires
            is_job_of(self@, job@),
        ensures
            error::outcome(out) == implicit::expansion(
                self@.tilings[job@.tiling as int],
                job@.coordinates,
                job@.url,
                document@,
                loaded@,
            ),
    {
        let tiling = &self.tilings[job.tiling];
        assert(self@.tilings[job.tiling as int] == tiling@);
        tiling.expand_subtree(job.coordinates, &job.url, document, loaded)
    }

    fn add_buffers(&mut self, urls: Vec<Url>) -> (out: Result<()>)
        requires
            old(self)@.buffer_files + urls@.len() <= usize::MAX,
        ensures
            (final(self)@, error::done(out)) == buffers_added(
                old(self)@,
                subtree::url_views(urls@),
                urls@.len(),
            ),
    {
        let ghost start = self@;
        let ghost models = subtree::url_views(urls@);
        let mut i: usize = 0;
        while i < urls.len()
            invariant
                i <= urls.len(),
                models == subtree::url_views(urls@),
                start == old(self)@,
                (self@, Ok::<(), ErrorModel>(())) == buffers_added(start, models, i as nat),
                self@.buffer_files <= start.buffer_files + i,
                start.buffer_files + urls@.len() <= usize::MAX,
            decreases urls.len() - i,
        {
            assert(models[i as int] == urls@[i as int]@);
            let met = self.collector.holds(&urls[i]);
            match self.collector.add(urls[i].duplicate(), ItemKind::Buffer) {
                Ok(()) => {
                    if !met {
                        self.buffer_files = self.buffer_files + 1;
                    }
                },
                Err(error) => {
                    proof {
                        lemma_failed_buffer(start, models, (i + 1) as nat, models.len());
                    }
                    return Err(error);
                },
            }
            i += 1;
        }
        Ok(())
    }

    fn add_contents(&mut self, urls: Vec<Url>) -> (out: Result<()>)
        ensures
            (final(self)@, error::done(out)) == contents_added(
                old(self)@,
                subtree::url_views(urls@),
                urls@.len(),
            ),
    {
        let ghost start = self@;
        let ghost models = subtree::url_views(urls@);
        let mut i: usize = 0;
        while i < urls.len()
            invariant
                i <= urls.len(),
                models == subtree::url_views(urls@),
                start == old(self)@,
                (self@, Ok::<(), ErrorModel>(())) == contents_added(start, models, i as nat),
            decreases urls.len() - i,
        {
            assert(models[i as int] == urls@[i as int]@);
            let result = self.collector.add(urls[i].duplicate(), ItemKind::Content);
            if result.is_err() {
                proof {
                    lemma_failed_content(start, models, (i + 1) as nat, models.len());
                }
                return result;
            }
            i += 1;
        }
        Ok(())
    }

    /// Takes in what a subtree makes available.
    pub fn absorb_expansion(&mut self, job: &SubtreeJob, expansion: SubtreeExpansion) -> (out:
        Result<()>)
        requires
            old(self)@.buffer_files + expansion@.external_buffers.len() <= usize::MAX,
        ensures
            (final(self)@, error::done(out)) == absorbed_expansion(
                old(self)@,
                job@,
                expansion@,
            ),
    {
        let ghost model = expansion@;
        let SubtreeExpansion { content_urls, child_subtrees, external_buffers, .. } = expansion;
        self.add_buffers(external_buffers)?;
        self.add_contents(content_urls)?;
        let ghost second = self@;
        let ghost queued = child_jobs(job@.tiling, model.child_subtrees);
        let mut i: usize = 0;
        assert(second.queue + queued.take(0) =~= second.queue);
        while i < child_subtrees.len()
            invariant
                i <= child_subtrees.len(),
                queued == child_jobs(job@.tiling, implicit::child_views(child_subtrees@)),
                self@ == (CrawlModel { queue: second.queue + queued.take(i as int), ..second }),
            decreases child_subtrees.len() - i,
        {
            let ghost before = self@.queue;
            let next = SubtreeJob {
                tiling: job.tiling,
                coordinates: child_subtrees[i].0,
                url: child_subtrees[i].1.duplicate(),
            };
            let ghost added = next@;
            self.queue.push(next);
            proof {
                assert(implicit::child_views(child_subtrees@)[i as int] == (ChildModel {
                    coordinates: child_subtrees@[i as int].0,
                    url: child_subtrees@[i as int].1@,
                }));
                assert(added == queued[i as int]);
                assert(self@.queue =~= before.push(added));
                assert(second.queue + queued.take(i + 1) =~= before.push(added));
            }
            i += 1;
        }
        assert(queued.take(i as int) =~= queued);
        Ok(())
    }

    /// The finished plan. Deterministic: the same tileset always produces the same
    /// plan, sorted by local path.
    pub fn finish(self) -> (discovery: Discovery)
        ensures
            discovery.entry@ == self@.entry,
            plan::is_sorted(collector::item_views(discovery.items@)),
            collector::item_views(discovery.items@).to_multiset()
                == self@.collector.items.to_multiset(),
            discovery.external_tilesets == self@.external_tilesets,
            discovery.implicit_tilesets == self@.implicit_tilesets,
            discovery.subtree_files == self@.subtree_files,
            discovery.buffer_files == self@.buffer_files,
    {
        let items = plan::sort_items(self.collector.into_items());
        Discovery {
            entry: self.entry,
            items,
            external_tilesets: self.external_tilesets,
            implicit_tilesets: self.implicit_tilesets,
            subtree_files: self.subtree_files,
            buffer_files: self.buffer_files,
        }
    }
}

/// How many files of a plan are of a kind.
pub open spec fn of_kind(items: Seq<ItemModel>, kind: ItemKind) -> nat
    decreases items.len(),
{
    if items.len() == 0 {
        0
    } else {
        of_kind(items.drop_last(), kind) + (if items.last().kind == kind {
            1nat
        } else {
            0
        })
    }
}

/// The counters of a crawl are right: there are as many external tilesets as documents
/// were visited beside the entry document, and as many subtree and buffer files as the
/// plan holds files of these kinds.
#[verifier::opaque]
pub open spec fn is_counted(m: CrawlModel) -> bool {
    &&& m.visited.finite()
    &&& m.external_tilesets + 1 == m.visited.len()
    &&& m.subtree_files == of_kind(m.collector.items, ItemKind::Subtree)
    &&& m.buffer_files == of_kind(m.collector.items, ItemKind::Buffer)
}

/// The counters stay right where neither they nor what they count changes.
proof fn lemma_stays_counted(m: CrawlModel, after: CrawlModel)
    requires
        is_counted(m),
        after.visited == m.visited,
        after.collector == m.collector,
        after.external_tilesets == m.external_tilesets,
        after.subtree_files == m.subtree_files,
        after.buffer_files == m.buffer_files,
    ensures
        is_counted(after),
{
    reveal(is_counted);
}

proof fn lemma_of_kind_is_bounded(items: Seq<ItemModel>, kind: ItemKind)
    ensures
        of_kind(items, kind) <= items.len(),
    decreases items.len(),
{
    if items.len() > 0 {
        lemma_of_kind_is_bounded(items.drop_last(), kind);
    }
}

/// A URL that is met for the first time is one more file of its kind, and of no other.
proof fn lemma_one_more(c: CollectorModel, url: UrlParts, kind: ItemKind, counted: ItemKind)
    requires
        collector::is_consistent(c),
        collector::added(c, url, kind).1 is Ok,
    ensures
        ({
            let after = collector::added(c, url, kind).0;
            &&& of_kind(after.items, counted) == of_kind(c.items, counted) + (if kind == counted {
                newly_met(c, url)
            } else {
                0
            })
            &&& of_kind(after.items, counted) <= MAX_ITEMS
        }),
{
    let after = collector::added(c, url, kind).0;
    collector::law_adding_keeps_consistency(c, url, kind);
    if !c.seen.contains(url.text) {
        assert(after.items.drop_last() =~= c.items);
    }
    lemma_of_kind_is_bounded(after.items, counted);
}

/// The plan starts with the entry document.
pub open spec fn starts_with_entry(m: CrawlModel) -> bool {
    &&& m.collector.items.len() > 0
    &&& m.collector.items[0].url.text == m.entry.text
    &&& m.collector.items[0].kind == ItemKind::Tileset
}

/// What holds of a crawl as long as nothing was refused: the plan is consistent and
/// starts with the entry document, the counters are right, every queued document was visited
/// and is queued once, every visited document is in the plan, and every queued subtree
/// starts above the last level of its tileset.
pub open spec fn is_sound_crawl(m: CrawlModel) -> bool {
    &&& collector::is_consistent(m.collector)
    &&& is_counted(m)
    &&& starts_with_entry(m)
    &&& m.visited.contains(m.entry.text)
    &&& m.visited.subset_of(m.collector.seen)
    &&& forall|i: int| 0 <= i < m.frontier.len() ==> m.visited.contains((#[trigger] m.frontier[i]).text)
    &&& forall|i: int, j: int|
        0 <= i < j < m.frontier.len() ==> (#[trigger] m.frontier[i]).text != (
        #[trigger] m.frontier[j]).text
    &&& forall|i: int| 0 <= i < m.tilings.len() ==> implicit::levels_in_range(#[trigger] m.tilings[i])
    &&& forall|i: int| 0 <= i < m.queue.len() ==> is_reachable(m, #[trigger] m.queue[i])
}

/// A job that starts above the last level of its tileset.
pub open spec fn is_reachable(m: CrawlModel, job: JobModel) -> bool {
    &&& is_job_of(m, job)
    &&& job.coordinates.level < m.tilings[job.tiling as int].available_levels
}

/// A crawl only grows: the plan keeps its files, what was visited stays visited,
/// only documents that were not visited yet join the frontier, and what is visited
/// for the first time joins it.
pub open spec fn grew(m: CrawlModel, after: CrawlModel) -> bool {
    &&& after.entry == m.entry
    &&& after.collector.base == m.collector.base
    &&& m.collector.items.is_prefix_of(after.collector.items)
    &&& m.collector.seen.subset_of(after.collector.seen)
    &&& m.visited.subset_of(after.visited)
    &&& m.frontier.is_prefix_of(after.frontier)
    &&& forall|i: int|
        m.frontier.len() <= i < after.frontier.len() ==> !m.visited.contains(
            (#[trigger] after.frontier[i]).text,
        )
    &&& forall|t: Seq<char>| #[trigger]
        after.visited.contains(t) ==> m.visited.contains(t) || waits_in(after.frontier, t)
    &&& m.tilings.is_prefix_of(after.tilings)
    &&& m.queue.is_prefix_of(after.queue)
}

/// A document with the address `t` waits for its round.
pub open spec fn waits_in(frontier: Seq<UrlParts>, t: Seq<char>) -> bool {
    exists|i: int| 0 <= i < frontier.len() && (#[trigger] frontier[i]).text == t
}

/// The crawl of tileset documents stands where it stood.
pub open spec fn same_documents(m: CrawlModel, after: CrawlModel) -> bool {
    &&& after.entry == m.entry
    &&& after.visited == m.visited
    &&& after.frontier == m.frontier
    &&& after.tilings == m.tilings
    &&& after.expanding == m.expanding
}

/// Growth upon growth is growth.
pub proof fn lemma_grew_further(a: CrawlModel, b: CrawlModel, c: CrawlModel)
    requires
        grew(a, b),
        grew(b, c),
    ensures
        grew(a, c),
{
    assert forall|i: int| a.frontier.len() <= i < c.frontier.len() implies !a.visited.contains(
        (#[trigger] c.frontier[i]).text,
    ) by {
        if i < b.frontier.len() {
            assert(c.frontier[i] == b.frontier[i]);
        } else {
            assert(!b.visited.contains(c.frontier[i].text));
        }
    }
    assert forall|t: Seq<char>| #[trigger] c.visited.contains(t) implies a.visited.contains(t)
        || waits_in(c.frontier, t) by {
        if b.visited.contains(t) && waits_in(b.frontier, t) {
            let i = choose|i: int| 0 <= i < b.frontier.len() && (#[trigger] b.frontier[i]).text == t;
            assert(c.frontier[i].text == t);
        }
    }
}

/// A crawl starts sound, with the entry document in the plan and as the only
/// document of the first round.
pub proof fn law_start_is_sound(entry: UrlParts, base: UrlParts)
    ensures
        started(entry, base) matches Ok(m) ==> {
            &&& is_sound_crawl(m)
            &&& m.frontier == seq![entry]
            &&& m.collector.seen.contains(entry.text)
        },
{
    let empty = CollectorModel {
        base,
        items: Seq::empty(),
        seen: Set::empty(),
        owners: Map::empty(),
    };
    collector::law_empty_plan_is_consistent(base);
    collector::law_adding_keeps_consistency(empty, entry, ItemKind::Tileset);
    if collector::added(empty, entry, ItemKind::Tileset).1 is Ok {
        reveal(is_counted);
        lemma_one_more(empty, entry, ItemKind::Tileset, ItemKind::Subtree);
        lemma_one_more(empty, entry, ItemKind::Tileset, ItemKind::Buffer);
    }
}

#[verifier::spinoff_prover]
proof fn lemma_followed(m: CrawlModel, document: UrlParts, reference: ReferenceModel)
    requires
        is_sound_crawl(m),
    ensures
        followed(m, document, reference).1 is Ok ==> {
            let after = followed(m, document, reference).0;
            &&& is_sound_crawl(after)
            &&& grew(m, after)
            &&& after.queue == m.queue
            &&& after.expanding == m.expanding
            &&& web_url::join_outcome(document, reference.uri) matches Ok(url)
            &&& after.collector.seen.contains(url.text)
            &&& reference.kind == ReferenceKind::Tileset ==> after.visited.contains(url.text)
        },
{
    let after = followed(m, document, reference).0;
    if let Ok(url) = web_url::join_outcome(document, reference.uri) {
        let kind = match reference.kind {
            ReferenceKind::Content => ItemKind::Content,
            ReferenceKind::Tileset => ItemKind::Tileset,
        };
        collector::law_adding_keeps_consistency(m.collector, url, kind);
        if followed(m, document, reference).1 is Ok {
            law_documents_are_bounded(m);
            lemma_one_more(m.collector, url, kind, ItemKind::Subtree);
            lemma_one_more(m.collector, url, kind, ItemKind::Buffer);
            assert(is_counted(after)) by {
                reveal(is_counted);
            }
            assert(after.tilings == m.tilings);
            assert(after.queue == m.queue);
            assert forall|i: int| 0 <= i < after.queue.len() implies is_reachable(
                after,
                #[trigger] after.queue[i],
            ) by {
                assert(is_reachable(m, m.queue[i]));
            }
            assert forall|t: Seq<char>| #[trigger] after.visited.contains(t) implies
                m.visited.contains(t) || waits_in(after.frontier, t) by {
                if !m.visited.contains(t) {
                    assert(after.frontier[m.frontier.len() as int].text == t);
                }
            }
        }
    }
}

#[verifier::spinoff_prover]
proof fn lemma_followed_all(
    m: CrawlModel,
    document: UrlParts,
    references: Seq<ReferenceModel>,
    n: nat,
)
    requires
        is_sound_crawl(m),
        n <= references.len(),
    ensures
        followed_all(m, document, references, n).1 is Ok ==> {
            let after = followed_all(m, document, references, n).0;
            &&& is_sound_crawl(after)
            &&& grew(m, after)
            &&& after.queue == m.queue
            &&& after.expanding == m.expanding
            &&& forall|i: int|
                0 <= i < n ==> is_planned(after, document, #[trigger] references[i])
        },
    decreases n,
{
    if n > 0 {
        lemma_followed_all(m, document, references, (n - 1) as nat);
        let (before, result) = followed_all(m, document, references, (n - 1) as nat);
        if result is Ok {
            lemma_followed(before, document, references[n - 1]);
            let after = followed_all(m, document, references, n).0;
            if followed_all(m, document, references, n).1 is Ok {
                lemma_grew_further(m, before, after);
                assert forall|i: int| 0 <= i < n implies is_planned(
                    after,
                    document,
                    #[trigger] references[i],
                ) by {
                    if i < n - 1 {
                        assert(is_planned(before, document, references[i]));
                    }
                }
            }
        }
    }
}

/// What a reference names is in the plan, and, where it is a tileset document, was
/// queued.
pub open spec fn is_planned(m: CrawlModel, document: UrlParts, reference: ReferenceModel) -> bool {
    &&& web_url::join_outcome(document, reference.uri) matches Ok(url)
    &&& m.collector.seen.contains(url.text)
    &&& reference.kind == ReferenceKind::Tileset ==> m.visited.contains(url.text)
}

#[verifier::spinoff_prover]
proof fn lemma_declared_all(
    m: CrawlModel,
    document: UrlParts,
    sources: Seq<ImplicitSourceModel>,
    n: nat,
)
    requires
        is_sound_crawl(m),
        n <= sources.len(),
    ensures
        declared_all(m, document, sources, n).1 is Ok ==> {
            let after = declared_all(m, document, sources, n).0;
            &&& is_sound_crawl(after)
            &&& grew(m, after)
            &&& after.queue == m.queue
            &&& after.expanding == m.expanding
            &&& after.collector == m.collector
            &&& after.visited == m.visited
            &&& after.tilings.len() == m.tilings.len() + n
            &&& forall|i: int|
                0 <= i < n ==> implicit::declared_tiling(document, #[trigger] sources[i]) == Ok::<
                    TilingModel,
                    ErrorModel,
                >(after.tilings[m.tilings.len() + i])
        },
    decreases n,
{
    if n > 0 {
        lemma_declared_all(m, document, sources, (n - 1) as nat);
        let (before, result) = declared_all(m, document, sources, (n - 1) as nat);
        let after = declared_all(m, document, sources, n).0;
        if result is Ok && declared_all(m, document, sources, n).1 is Ok {
            lemma_stays_counted(before, after);
            assert forall|i: int| 0 <= i < after.queue.len() implies is_reachable(
                after,
                #[trigger] after.queue[i],
            ) by {
                assert(is_reachable(before, before.queue[i]));
            }
            assert(before.tilings.is_prefix_of(after.tilings));
            lemma_grew_further(m, before, after);
            assert forall|i: int| 0 <= i < n implies implicit::declared_tiling(
                document,
                #[trigger] sources[i],
            ) == Ok::<TilingModel, ErrorModel>(after.tilings[m.tilings.len() + i]) by {
                if i < n - 1 {
                    assert(after.tilings[m.tilings.len() + i] == before.tilings[m.tilings.len()
                        + i]);
                }
            }
        }
    }
}

/// Taking in a document keeps the crawl sound and misses nothing: everything the
/// document references is in the plan afterwards, every implicit tileset it declares
/// is known. A document that was visited before is never queued again, so reference
/// cycles are harmless.
#[verifier::spinoff_prover]
pub proof fn law_scan_is_absorbed(m: CrawlModel, document: UrlParts, scan: ScanModel)
    requires
        is_sound_crawl(m),
    ensures
        absorbed_scan(m, document, scan).1 is Ok ==> {
            let after = absorbed_scan(m, document, scan).0;
            &&& is_sound_crawl(after)
            &&& grew(m, after)
            &&& after.queue == m.queue
            &&& after.expanding == m.expanding
            &&& forall|i: int|
                0 <= i < scan.references.len() ==> is_planned(
                    after,
                    document,
                    #[trigger] scan.references[i],
                )
            &&& forall|i: int|
                0 <= i < scan.implicits.len() ==> (implicit::declared_tiling(
                    document,
                    #[trigger] scan.implicits[i],
                ) matches Ok(tiling) && after.tilings.contains(tiling))
        },
{
    let references = scan.references;
    lemma_followed_all(m, document, references, references.len());
    let (middle, result) = followed_all(m, document, references, references.len());
    if result is Ok {
        lemma_declared_all(middle, document, scan.implicits, scan.implicits.len());
        let after = absorbed_scan(m, document, scan).0;
        if absorbed_scan(m, document, scan).1 is Ok {
            lemma_grew_further(m, middle, after);
            assert forall|i: int| 0 <= i < references.len() implies is_planned(
                after,
                document,
                #[trigger] references[i],
            ) by {
                assert(is_planned(middle, document, references[i]));
            }
            assert forall|i: int| 0 <= i < scan.implicits.len() implies (implicit::declared_tiling(
                document,
                #[trigger] scan.implicits[i],
            ) matches Ok(tiling) && after.tilings.contains(tiling)) by {
                let tiling = after.tilings[middle.tilings.len() + i];
                assert(implicit::declared_tiling(document, scan.implicits[i]) == Ok::<
                    TilingModel,
                    ErrorModel,
                >(tiling));
            }
        }
    }
}

/// Handing out the documents of a round keeps the crawl sound.
pub proof fn law_documents_are_taken(m: CrawlModel)
    requires
        is_sound_crawl(m),
    ensures
        is_sound_crawl(CrawlModel { frontier: Seq::empty(), ..m }),
{
    let after = CrawlModel { frontier: Seq::empty(), ..m };
    lemma_stays_counted(m, after);
    assert forall|i: int| 0 <= i < after.queue.len() implies is_reachable(
        after,
        #[trigger] after.queue[i],
    ) by {
        assert(is_reachable(m, m.queue[i]));
    }
}

/// Emptying the queue keeps the crawl sound.
pub proof fn lemma_queue_is_emptied(m: CrawlModel)
    requires
        is_sound_crawl(m),
    ensures
        is_sound_crawl(CrawlModel { queue: Seq::empty(), ..m }),
{
    lemma_stays_counted(m, CrawlModel { queue: Seq::empty(), ..m });
}

/// A crawl whose plan alone grew.
#[verifier::spinoff_prover]
proof fn lemma_plan_grew(m: CrawlModel, url: UrlParts, kind: ItemKind, after: CrawlModel)
    requires
        is_sound_crawl(m),
        collector::added(m.collector, url, kind).1 is Ok,
        after.entry == m.entry,
        after.collector == collector::added(m.collector, url, kind).0,
        after.visited == m.visited,
        after.frontier == m.frontier,
        after.tilings == m.tilings,
        after.queue == m.queue,
        after.external_tilesets == m.external_tilesets,
        after.subtree_files == (m.subtree_files + (if kind == ItemKind::Subtree {
            newly_met(m.collector, url)
        } else {
            0
        })) as usize,
        after.buffer_files == (m.buffer_files + (if kind == ItemKind::Buffer {
            newly_met(m.collector, url)
        } else {
            0
        })) as usize,
    ensures
        is_sound_crawl(after),
        grew(m, after),
        after.collector.seen.contains(url.text),
{
    collector::law_adding_keeps_consistency(m.collector, url, kind);
    assert(is_counted(after)) by {
        reveal(is_counted);
        lemma_one_more(m.collector, url, kind, ItemKind::Subtree);
        lemma_one_more(m.collector, url, kind, ItemKind::Buffer);
    }
    assert forall|i: int| 0 <= i < after.queue.len() implies is_reachable(
        after,
        #[trigger] after.queue[i],
    ) by {
        assert(is_reachable(m, m.queue[i]));
    }
}

/// A sound crawl whose plan alone grew, with everything else as it was.
#[verifier::opaque]
spec fn is_kept(m: CrawlModel, after: CrawlModel) -> bool {
    &&& is_sound_crawl(after)
    &&& grew(m, after)
    &&& same_documents(m, after)
    &&& after.queue == m.queue
}

proof fn lemma_is_kept(m: CrawlModel)
    requires
        is_sound_crawl(m),
    ensures
        is_kept(m, m),
{
    reveal(is_kept);
}

/// One more file in the plan keeps a crawl that was kept.
#[verifier::spinoff_prover]
proof fn lemma_one_planned(
    m: CrawlModel,
    before: CrawlModel,
    url: UrlParts,
    kind: ItemKind,
    after: CrawlModel,
)
    requires
        is_kept(m, before),
        collector::added(before.collector, url, kind).1 is Ok,
        after.collector == collector::added(before.collector, url, kind).0,
        after.queue == before.queue,
        same_documents(before, after),
        after.external_tilesets == before.external_tilesets,
        after.subtree_files == (before.subtree_files + (if kind == ItemKind::Subtree {
            newly_met(before.collector, url)
        } else {
            0
        })) as usize,
        after.buffer_files == (before.buffer_files + (if kind == ItemKind::Buffer {
            newly_met(before.collector, url)
        } else {
            0
        })) as usize,
    ensures
        is_kept(m, after),
        before.collector.seen.subset_of(after.collector.seen),
        after.collector.seen.contains(url.text),
{
    reveal(is_kept);
    lemma_plan_grew(before, url, kind, after);
    lemma_grew_further(m, before, after);
}

proof fn lemma_announced(m: CrawlModel, jobs: Seq<JobModel>, n: nat)
    requires
        is_kept(m, m),
        n <= jobs.len(),
    ensures
        announced(m, jobs, n).1 is Ok ==> {
            let after = announced(m, jobs, n).0;
            &&& is_kept(m, after)
            &&& forall|i: int|
                0 <= i < n ==> after.collector.seen.contains((#[trigger] jobs[i]).url.text)
        },
    decreases n,
{
    if n > 0 {
        lemma_announced(m, jobs, (n - 1) as nat);
        let (before, result) = announced(m, jobs, (n - 1) as nat);
        let after = announced(m, jobs, n).0;
        if result is Ok && announced(m, jobs, n).1 is Ok {
            lemma_one_planned(m, before, jobs[n - 1].url, ItemKind::Subtree, after);
        }
    }
}

/// Handing out the subtrees of a round keeps the crawl sound, and every one of them
/// is in the plan.
#[verifier::spinoff_prover]
pub proof fn law_subtrees_are_announced(m: CrawlModel, jobs: Seq<JobModel>, n: nat)
    requires
        is_sound_crawl(m),
        n <= jobs.len(),
    ensures
        announced(m, jobs, n).1 is Ok ==> {
            let after = announced(m, jobs, n).0;
            &&& is_sound_crawl(after)
            &&& grew(m, after)
            &&& same_documents(m, after)
            &&& after.queue == m.queue
            &&& forall|i: int|
                0 <= i < n ==> after.collector.seen.contains((#[trigger] jobs[i]).url.text)
        },
{
    lemma_is_kept(m);
    lemma_announced(m, jobs, n);
    reveal(is_kept);
}

proof fn lemma_buffers_added(m: CrawlModel, urls: Seq<UrlParts>, n: nat)
    requires
        is_kept(m, m),
        n <= urls.len(),
    ensures
        buffers_added(m, urls, n).1 is Ok ==> {
            let after = buffers_added(m, urls, n).0;
            &&& is_kept(m, after)
            &&& forall|i: int|
                0 <= i < n ==> after.collector.seen.contains((#[trigger] urls[i]).text)
        },
    decreases n,
{
    if n > 0 {
        lemma_buffers_added(m, urls, (n - 1) as nat);
        let (before, result) = buffers_added(m, urls, (n - 1) as nat);
        let after = buffers_added(m, urls, n).0;
        if result is Ok && buffers_added(m, urls, n).1 is Ok {
            lemma_one_planned(m, before, urls[n - 1], ItemKind::Buffer, after);
        }
    }
}

proof fn lemma_contents_added(m: CrawlModel, urls: Seq<UrlParts>, n: nat)
    requires
        is_kept(m, m),
        n <= urls.len(),
    ensures
        contents_added(m, urls, n).1 is Ok ==> {
            let after = contents_added(m, urls, n).0;
            &&& is_kept(m, after)
            &&& forall|i: int|
                0 <= i < n ==> after.collector.seen.contains((#[trigger] urls[i]).text)
        },
    decreases n,
{
    if n > 0 {
        lemma_contents_added(m, urls, (n - 1) as nat);
        let (before, result) = contents_added(m, urls, (n - 1) as nat);
        let after = contents_added(m, urls, n).0;
        if result is Ok && contents_added(m, urls, n).1 is Ok {
            lemma_one_planned(m, before, urls[n - 1], ItemKind::Content, after);
        }
    }
}

/// Taking in an expanded subtree keeps the crawl sound and misses nothing: its
/// buffers and contents are in the plan afterwards, and its children are queued.
/// Every child starts further down than the subtree, and above the last available
/// level, so the descent ends after at most as many rounds as there are levels.
#[verifier::spinoff_prover]
pub proof fn law_expansion_is_absorbed(
    m: CrawlModel,
    job: JobModel,
    document: subtree::SubtreeModel,
    loaded: subtree::LoadedModel,
    expansion: ExpansionModel,
)
    requires
        is_sound_crawl(m),
        is_reachable(m, job),
        implicit::expansion(
            m.tilings[job.tiling as int],
            job.coordinates,
            job.url,
            document,
            loaded,
        ) == Ok::<ExpansionModel, ErrorModel>(expansion),
    ensures
        absorbed_expansion(m, job, expansion).1 is Ok ==> {
            let after = absorbed_expansion(m, job, expansion).0;
            &&& is_sound_crawl(after)
            &&& grew(m, after)
            &&& same_documents(m, after)
            &&& forall|i: int|
                0 <= i < expansion.external_buffers.len() ==> after.collector.seen.contains(
                    (#[trigger] expansion.external_buffers[i]).text,
                )
            &&& forall|i: int|
                0 <= i < expansion.content_urls.len() ==> after.collector.seen.contains(
                    (#[trigger] expansion.content_urls[i]).text,
                )
            &&& after.queue == m.queue + child_jobs(job.tiling, expansion.child_subtrees)
            &&& forall|i: int|
                m.queue.len() <= i < after.queue.len() ==> job.coordinates.level < (
                #[trigger] after.queue[i]).coordinates.level < implicit::MAX_LEVELS
        },
{
    let buffers = expansion.external_buffers;
    let contents = expansion.content_urls;
    lemma_is_kept(m);
    lemma_buffers_added(m, buffers, buffers.len());
    let (first, fetched) = buffers_added(m, buffers, buffers.len());
    if fetched is Ok {
        reveal(is_kept);
        lemma_is_kept(first);
        lemma_contents_added(first, contents, contents.len());
        let (second, recorded) = contents_added(first, contents, contents.len());
        if recorded is Ok {
            let after = absorbed_expansion(m, job, expansion).0;
            let tiling = m.tilings[job.tiling as int];
            let bits = implicit::subtree_bits(tiling, job.url, document, loaded.buffers)->Ok_0;
            implicit::law_children_descend(
                tiling,
                job.coordinates,
                bits.children,
                job.url,
                document.subtree_uri,
            );
            let children = child_jobs(job.tiling, expansion.child_subtrees);
            lemma_stays_counted(second, after);
            assert(implicit::levels_in_range(tiling));
            assert forall|i: int| 0 <= i < after.queue.len() implies is_reachable(
                after,
                #[trigger] after.queue[i],
            ) by {
                if i < second.queue.len() {
                    assert(is_reachable(second, second.queue[i]));
                } else {
                    let k = i - second.queue.len();
                    assert(after.queue[i] == children[k]);
                    let child = expansion.child_subtrees[k];
                    assert(child.coordinates.level < tiling.available_levels);
                }
            }
            assert forall|i: int| m.queue.len() <= i < after.queue.len() implies
                job.coordinates.level < (#[trigger] after.queue[i]).coordinates.level
                < implicit::MAX_LEVELS by {
                let k = i - m.queue.len();
                assert(after.queue[i] == children[k]);
                let child = expansion.child_subtrees[k];
                assert(job.coordinates.level < child.coordinates.level
                    < tiling.available_levels);
            }
            lemma_grew_further(m, first, second);
            assert(grew(second, after));
            lemma_grew_further(m, second, after);
        }
    }
}

/// Queueing the roots of the implicit tilesets keeps the crawl sound.
pub proof fn law_roots_are_queued(m: CrawlModel)
    requires
        is_sound_crawl(m),
    ensures
        root_jobs(m.tilings, m.tilings.len()) matches Ok(jobs) ==> {
            &&& jobs.len() == m.tilings.len()
            &&& is_sound_crawl(rooted(m, jobs))
        },
{
    lemma_root_jobs(m.tilings, m.tilings.len());
    if let Ok(jobs) = root_jobs(m.tilings, m.tilings.len()) {
        let after = rooted(m, jobs);
        lemma_stays_counted(m, after);
        assert forall|i: int| 0 <= i < after.queue.len() implies is_reachable(
            after,
            #[trigger] after.queue[i],
        ) by {
            if i < m.queue.len() {
                assert(is_reachable(m, m.queue[i]));
            } else {
                let k = i - m.queue.len();
                assert(after.queue[i] == jobs[k]);
                assert(implicit::levels_in_range(m.tilings[k]));
            }
        }
    }
}

proof fn lemma_root_jobs(tilings: Seq<TilingModel>, n: nat)
    requires
        n <= tilings.len(),
    ensures
        root_jobs(tilings, n) matches Ok(jobs) ==> {
            &&& jobs.len() == n
            &&& forall|i: int|
                0 <= i < n ==> (#[trigger] jobs[i]).tiling == i && jobs[i].coordinates
                    == root_coordinates()
        },
    decreases n,
{
    if n > 0 {
        lemma_root_jobs(tilings, (n - 1) as nat);
    }
}

/// The crawl of tileset documents ends: no more documents are ever queued than the
/// ceiling on the size of a plan allows.
pub proof fn law_documents_are_bounded(m: CrawlModel)
    requires
        is_sound_crawl(m),
    ensures
        m.visited.finite(),
        m.visited.len() <= MAX_ITEMS,
        m.frontier.len() <= MAX_ITEMS,
{
    let items = m.collector.items;
    let texts = items.map_values(|item: ItemModel| item.url.text);
    texts.lemma_cardinality_of_set();
    assert(texts.to_set().finite()) by {
        vstd::seq_lib::seq_to_set_is_finite(texts);
    }
    assert forall|t: Seq<char>| m.visited.contains(t) implies #[trigger] texts.to_set().contains(
        t,
    ) by {
        assert(m.collector.seen.contains(t));
        let i = choose|i: int| 0 <= i < items.len() && (#[trigger] items[i]).url.text == t;
        assert(texts[i] == t);
    }
    assert(m.visited.subset_of(texts.to_set()));
    vstd::set_lib::lemma_len_subset(m.visited, texts.to_set());
    let queued = m.frontier.map_values(|url: UrlParts| url.text);
    assert(queued.no_duplicates()) by {
        assert forall|i: int, j: int|
            0 <= i < queued.len() && 0 <= j < queued.len() && i != j implies queued[i]
            != queued[j] by {
            if i < j {
                assert(m.frontier[i].text != m.frontier[j].text);
            } else {
                assert(m.frontier[j].text != m.frontier[i].text);
            }
        }
    }
    queued.unique_seq_to_set();
    assert forall|t: Seq<char>| queued.to_set().contains(t) implies #[trigger] m.visited.contains(
        t,
    ) by {
        let i = choose|i: int| 0 <= i < queued.len() && queued[i] == t;
        assert(m.visited.contains(m.frontier[i].text));
    }
    assert(queued.to_set().subset_of(m.visited));
    vstd::set_lib::lemma_len_subset(queued.to_set(), m.visited);
}

/// The counters count documents, not references: there are as many external tilesets
/// as documents were visited beside the entry document, however often each was named,
/// and as many subtree and buffer files as the plan holds files of these kinds.
pub proof fn law_counters_count_documents(m: CrawlModel)
    requires
        is_sound_crawl(m),
    ensures
        m.visited.contains(m.entry.text),
        m.external_tilesets == m.visited.remove(m.entry.text).len(),
        m.subtree_files == of_kind(m.collector.items, ItemKind::Subtree),
        m.buffer_files == of_kind(m.collector.items, ItemKind::Buffer),
{
    reveal(is_counted);
}

/// The finished plan of a sound crawl: it holds the entry document, as a tileset, every URL that
/// was met and nothing else, each once; no two of its files share a local path, and
/// each has a path inside whatever directory the plan is written to.
pub proof fn law_finished_plan(m: CrawlModel, items: Seq<ItemModel>, root: Seq<char>)
    requires
        is_sound_crawl(m),
        items.to_multiset() == m.collector.items.to_multiset(),
    ensures
        exists|i: int|
            0 <= i < items.len() && (#[trigger] items[i]).url.text == m.entry.text
                && items[i].kind == ItemKind::Tileset,
        forall|t: Seq<char>|
            m.collector.seen.contains(t) <==> (exists|i: int|
                0 <= i < items.len() && (#[trigger] items[i]).url.text == t),
        forall|i: int, j: int|
            0 <= i < j < items.len() ==> (#[trigger] items[i]).url.text != (
            #[trigger] items[j]).url.text && local_path::parts(items[i].path)
                != local_path::parts(items[j].path),
        forall|i: int|
            0 <= i < items.len() ==> local_path::parts(
                local_path::pushed(root, (#[trigger] items[i]).path),
            ) == local_path::parts(root) + local_path::parts(items[i].path)
                && local_path::is_nested(items[i].path),
{
    broadcast use vstd::seq_lib::group_to_multiset_ensures;

    let c = m.collector;
    let source = c.items;
    assert(source.no_duplicates()) by {
        assert forall|i: int, j: int|
            0 <= i < source.len() && 0 <= j < source.len() && i != j implies source[i]
            != source[j] by {
            if i < j {
                assert(source[i].url.text != source[j].url.text);
            } else {
                assert(source[j].url.text != source[i].url.text);
            }
        }
    }
    source.lemma_multiset_has_no_duplicates();
    items.lemma_multiset_has_no_duplicates_conv();
    assert forall|i: int| 0 <= i < items.len() implies source.contains(#[trigger] items[i]) by {
        assert(items.contains(items[i]));
        assert(items.to_multiset().contains(items[i]));
    }
    assert forall|k: int| 0 <= k < source.len() implies items.contains(#[trigger] source[k]) by {
        assert(source.contains(source[k]));
        assert(source.to_multiset().contains(source[k]));
    }
    assert forall|t: Seq<char>|
        c.seen.contains(t) implies exists|i: int|
        0 <= i < items.len() && (#[trigger] items[i]).url.text == t by {
        let k = choose|k: int| 0 <= k < source.len() && (#[trigger] source[k]).url.text == t;
        assert(items.contains(source[k]));
        let i = choose|i: int| 0 <= i < items.len() && items[i] == source[k];
        assert(items[i].url.text == t);
    }
    assert forall|t: Seq<char>|
        (exists|i: int| 0 <= i < items.len() && (#[trigger] items[i]).url.text
            == t) implies #[trigger] c.seen.contains(t) by {
        let i = choose|i: int| 0 <= i < items.len() && (#[trigger] items[i]).url.text == t;
        assert(source.contains(items[i]));
        let k = choose|k: int| 0 <= k < source.len() && source[k] == items[i];
        assert(c.seen.contains(source[k].url.text));
    }
    assert(items.contains(source[0]));
    let first = choose|i: int| 0 <= i < items.len() && items[i] == source[0];
    assert(items[first].url.text == m.entry.text && items[first].kind == ItemKind::Tileset);
    assert forall|i: int, j: int| 0 <= i < j < items.len() implies (#[trigger] items[i]).url.text
        != (#[trigger] items[j]).url.text && local_path::parts(items[i].path)
        != local_path::parts(items[j].path) by {
        assert(source.contains(items[i]) && source.contains(items[j]));
        let a = choose|a: int| 0 <= a < source.len() && source[a] == items[i];
        let b = choose|b: int| 0 <= b < source.len() && source[b] == items[j];
        assert(items[i] != items[j]);
        if a < b {
            collector::law_paths_are_unique(c, a, b);
        } else {
            collector::law_paths_are_unique(c, b, a);
        }
    }
    assert forall|i: int| 0 <= i < items.len() implies local_path::parts(
        local_path::pushed(root, (#[trigger] items[i]).path),
    ) == local_path::parts(root) + local_path::parts(items[i].path)
        && local_path::is_nested(items[i].path) by {
        assert(source.contains(items[i]));
        let k = choose|k: int| 0 <= k < source.len() && source[k] == items[i];
        collector::law_planned_paths_are_safe(c, k, root, local_path::PathStyle::Unix);
    }
}

/// A crawl starts exactly where the entry document has a local path. The entry document is
/// then its only file, recorded as a tileset, and the only document of its first round.
pub proof fn law_crawl_starts_with_the_entry(entry: UrlParts, base: UrlParts)
    ensures
        match path_util::output_path(entry, base) {
            Err(error) => started(entry, base) == Err::<CrawlModel, ErrorModel>(error),
            Ok(path) => started(entry, base) matches Ok(m) && {
                &&& m.entry == entry
                &&& m.collector.base == base
                &&& m.collector.items == seq![ItemModel { url: entry, path, kind: ItemKind::Tileset }]
                &&& m.frontier == seq![entry]
                &&& m.visited.contains(entry.text)
                &&& m.tilings.len() == 0
                &&& m.queue.len() == 0
                &&& !m.expanding
                &&& m.external_tilesets == 0
                &&& m.implicit_tilesets == 0
                &&& m.subtree_files == 0
                &&& m.buffer_files == 0
            },
        },
{
    if let Ok(path) = path_util::output_path(entry, base) {
        let item = ItemModel { url: entry, path, kind: ItemKind::Tileset };
        assert(Seq::<ItemModel>::empty().push(item) =~= seq![item]);
    }
}

/// What following a reference comes to. A URI that does not resolve against the document
/// ends the crawl and changes nothing. One that does is recorded under the kind of the
/// reference, and a tileset document joins the next round and is counted exactly where it
/// was recorded and was not visited before. Nothing else changes.
pub proof fn law_references_are_followed(
    m: CrawlModel,
    document: UrlParts,
    reference: ReferenceModel,
)
    requires
        m.external_tilesets < usize::MAX,
    ensures
        ({
            let (after, result) = followed(m, document, reference);
            match web_url::joined_url(document.text, reference.uri) {
                Err(message) => after == m && result == Err::<(), ErrorModel>(
                    ErrorModel::Url { input: reference.uri, source: seq![message] },
                ),
                Ok(url) => {
                    let is_tileset = reference.kind == ReferenceKind::Tileset;
                    let kind = if is_tileset {
                        ItemKind::Tileset
                    } else {
                        ItemKind::Content
                    };
                    let queued = is_tileset && result is Ok && !m.visited.contains(url.text);
                    &&& (after.collector, result) == collector::added(m.collector, url, kind)
                    &&& queued ==> after.frontier == m.frontier.push(url) && after.visited
                        == m.visited.insert(url.text) && after.external_tilesets
                        == m.external_tilesets + 1
                    &&& !queued ==> after.frontier == m.frontier && after.visited == m.visited
                        && after.external_tilesets == m.external_tilesets
                    &&& after.entry == m.entry
                    &&& after.tilings == m.tilings
                    &&& after.queue == m.queue
                    &&& after.expanding == m.expanding
                    &&& after.implicit_tilesets == m.implicit_tilesets
                    &&& after.subtree_files == m.subtree_files
                    &&& after.buffer_files == m.buffer_files
                },
            }
        }),
{
}

/// The references of a document are followed one by one from the first on, and the first
/// that fails ends the crawl.
pub proof fn law_references_are_followed_in_order(
    m: CrawlModel,
    document: UrlParts,
    references: Seq<ReferenceModel>,
    n: nat,
)
    requires
        n <= references.len(),
    ensures
        n == 0 ==> followed_all(m, document, references, n) == (m, Ok::<(), ErrorModel>(())),
        n > 0 ==> followed_all(m, document, references, n) == ({
            let (first, result) = followed(m, document, references[0]);
            if result is Ok {
                followed_all(first, document, references.skip(1), (n - 1) as nat)
            } else {
                (first, result)
            }
        }),
    decreases n,
{
    if n == 1 {
        assert(followed_all(m, document, references, 0) == (m, Ok::<(), ErrorModel>(())));
        let (first, result) = followed(m, document, references[0]);
        assert(followed_all(first, document, references.skip(1), 0) == (
            first,
            Ok::<(), ErrorModel>(()),
        ));
    } else if n > 1 {
        law_references_are_followed_in_order(m, document, references, (n - 1) as nat);
        assert(references.skip(1)[n - 2] == references[n - 1]);
    }
}

/// The implicit tilesets of a document are taken in in order, and nothing else changes: each
/// is the one that its declaration describes. The first declaration that is malformed ends
/// the crawl with its error.
pub proof fn law_declarations_are_taken_in_order(
    m: CrawlModel,
    document: UrlParts,
    sources: Seq<ImplicitSourceModel>,
    n: nat,
)
    requires
        n <= sources.len(),
        m.implicit_tilesets + n <= usize::MAX,
    ensures
        ({
            let (after, result) = declared_all(m, document, sources, n);
            &&& result is Ok ==> {
                &&& after.tilings.len() == m.tilings.len() + n
                &&& after.implicit_tilesets == m.implicit_tilesets + n
                &&& forall|i: int|
                    0 <= i < m.tilings.len() ==> #[trigger] after.tilings[i] == m.tilings[i]
                &&& forall|i: int|
                    0 <= i < n ==> implicit::declared_tiling(document, #[trigger] sources[i])
                        == Ok::<TilingModel, ErrorModel>(after.tilings[m.tilings.len() + i])
            }
            &&& result matches Err(error) ==> exists|k: int|
                {
                    &&& 0 <= k < n
                    &&& implicit::declared_tiling(document, #[trigger] sources[k]) == Err::<
                        TilingModel,
                        ErrorModel,
                    >(error)
                    &&& forall|i: int|
                        0 <= i < k ==> implicit::declared_tiling(
                            document,
                            #[trigger] sources[i],
                        ) is Ok
                }
            &&& after.collector == m.collector
            &&& after.frontier == m.frontier
            &&& after.visited == m.visited
            &&& after.queue == m.queue
            &&& after.entry == m.entry
            &&& after.expanding == m.expanding
            &&& after.external_tilesets == m.external_tilesets
            &&& after.subtree_files == m.subtree_files
            &&& after.buffer_files == m.buffer_files
        }),
    decreases n,
{
    if n > 0 {
        let last = (n - 1) as nat;
        law_declarations_are_taken_in_order(m, document, sources, last);
        let (before, result) = declared_all(m, document, sources, last);
        let (after, outcome) = declared_all(m, document, sources, n);
        if result is Ok {
            assert(sources[last as int] == sources[n - 1]);
            assert forall|i: int| 0 <= i < last implies implicit::declared_tiling(
                document,
                #[trigger] sources[i],
            ) is Ok by {
                assert(implicit::declared_tiling(document, sources[i]) == Ok::<
                    TilingModel,
                    ErrorModel,
                >(before.tilings[m.tilings.len() + i]));
            }
        } else {
            let error = result->Err_0;
            let k = choose|k: int|
                {
                    &&& 0 <= k < last
                    &&& implicit::declared_tiling(document, #[trigger] sources[k]) == Err::<
                        TilingModel,
                        ErrorModel,
                    >(error)
                    &&& forall|i: int|
                        0 <= i < k ==> implicit::declared_tiling(
                            document,
                            #[trigger] sources[i],
                        ) is Ok
                };
            assert(sources[k] == sources[k]);
        }
    }
}

/// A document is taken in by following all its references and then taking in all the
/// implicit tilesets that it declares. A document without a root tile is refused by its
/// URL, and one with a root tile is scanned from there.
pub proof fn law_documents_are_taken_in_whole(
    m: CrawlModel,
    document: UrlParts,
    scan: ScanModel,
    root: Option<tileset::TileModel>,
)
    ensures
        ({
            let (middle, result) = followed_all(m, document, scan.references, scan.references.len());
            absorbed_scan(m, document, scan) == (match result {
                Ok(_) => declared_all(middle, document, scan.implicits, scan.implicits.len()),
                Err(_) => (middle, result),
            })
        }),
        root is None ==> scanned(root, document) == Err::<ScanModel, ErrorModel>(
            ErrorModel::MissingRoot { url: document.text },
        ),
        root matches Some(tile) ==> scanned(root, document) == Ok::<ScanModel, ErrorModel>(
            tileset::scan_of(tile),
        ),
{
}

/// Every implicit tileset is entered at its root: its first subtree is the one at level 0
/// and at the origin, at the place where the template leads from the document that declared
/// the tileset.
pub proof fn law_tilesets_are_entered_at_their_root(tilings: Seq<TilingModel>, n: nat)
    requires
        n <= tilings.len(),
    ensures
        root_jobs(tilings, n) matches Ok(jobs) ==> jobs.len() == n && forall|i: int|
            0 <= i < n ==> {
                let job = #[trigger] jobs[i];
                &&& job.tiling == i
                &&& job.coordinates == (Coordinates { level: 0, x: 0, y: 0, z: 0 })
                &&& web_url::joined_url(
                    tilings[i].base.text,
                    implicit::substituted(
                        tilings[i].subtree_uri_template,
                        Coordinates { level: 0, x: 0, y: 0, z: 0 },
                    ),
                ) == Ok::<UrlParts, Seq<char>>(job.url)
            },
        root_jobs(tilings, n) is Err ==> exists|i: int|
            0 <= i < n && web_url::joined_url(
                (#[trigger] tilings[i]).base.text,
                implicit::substituted(
                    tilings[i].subtree_uri_template,
                    Coordinates { level: 0, x: 0, y: 0, z: 0 },
                ),
            ) is Err,
    decreases n,
{
    if n > 0 {
        law_tilesets_are_entered_at_their_root(tilings, (n - 1) as nat);
        if root_jobs(tilings, (n - 1) as nat) is Ok {
            assert(tilings[n - 1] == tilings[n - 1]);
        } else {
            let i = choose|i: int|
                0 <= i < n - 1 && web_url::joined_url(
                    (#[trigger] tilings[i]).base.text,
                    implicit::substituted(
                        tilings[i].subtree_uri_template,
                        Coordinates { level: 0, x: 0, y: 0, z: 0 },
                    ),
                ) is Err;
            assert(tilings[i] == tilings[i]);
        }
    }
}

/// The new files of a plan: those from position `from` on are of one kind, and each of them
/// is one of `urls`.
pub open spec fn adds_only(
    before: Seq<ItemModel>,
    after: Seq<ItemModel>,
    urls: Seq<UrlParts>,
    kind: ItemKind,
) -> bool {
    &&& before.len() <= after.len()
    &&& forall|i: int| 0 <= i < before.len() ==> #[trigger] after[i] == before[i]
    &&& forall|i: int|
        before.len() <= i < after.len() ==> (#[trigger] after[i]).kind == kind && urls.contains(
            after[i].url,
        )
}

proof fn lemma_adds_only_one(
    start: Seq<ItemModel>,
    c: CollectorModel,
    urls: Seq<UrlParts>,
    kind: ItemKind,
    url: UrlParts,
)
    requires
        adds_only(start, c.items, urls, kind),
        urls.contains(url),
    ensures
        adds_only(start, collector::added(c, url, kind).0.items, urls, kind),
{
    let after = collector::added(c, url, kind).0;
    assert(after.items == c.items || (after.items.len() == c.items.len() + 1 && forall|i: int|
        0 <= i < c.items.len() ==> #[trigger] after.items[i] == c.items[i]));
    assert forall|i: int| start.len() <= i < after.items.len() implies (
    #[trigger] after.items[i]).kind == kind && urls.contains(after.items[i].url) by {
        if i < c.items.len() {
            assert(after.items[i] == c.items[i]);
        }
    }
    assert forall|i: int| 0 <= i < start.len() implies #[trigger] after.items[i] == start[i] by {
        assert(c.items[i] == start[i]);
    }
}

/// Contents are recorded as contents, buffers as buffers and subtrees as subtrees, and
/// nothing is recorded that was not named: whatever the outcome, every new file of the plan
/// is one of those that were handed in, under their kind.
#[verifier::spinoff_prover]
pub proof fn law_files_are_recorded_under_their_kind(
    m: CrawlModel,
    urls: Seq<UrlParts>,
    jobs: Seq<JobModel>,
    n: nat,
)
    requires
        n <= urls.len(),
        jobs.len() == urls.len(),
        forall|i: int| 0 <= i < jobs.len() ==> (#[trigger] jobs[i]).url == urls[i],
    ensures
        adds_only(
            m.collector.items,
            contents_added(m, urls, n).0.collector.items,
            urls,
            ItemKind::Content,
        ),
        adds_only(
            m.collector.items,
            buffers_added(m, urls, n).0.collector.items,
            urls,
            ItemKind::Buffer,
        ),
        adds_only(
            m.collector.items,
            announced(m, jobs, n).0.collector.items,
            urls,
            ItemKind::Subtree,
        ),
    decreases n,
{
    if n > 0 {
        let last = (n - 1) as nat;
        let url = urls[n - 1];
        law_files_are_recorded_under_their_kind(m, urls, jobs, last);
        assert(urls.contains(url));
        assert(jobs[n - 1].url == url);
        let contents = contents_added(m, urls, last).0.collector;
        let buffers = buffers_added(m, urls, last).0.collector;
        let subtrees = announced(m, jobs, last).0.collector;
        lemma_adds_only_one(m.collector.items, contents, urls, ItemKind::Content, url);
        lemma_adds_only_one(m.collector.items, buffers, urls, ItemKind::Buffer, url);
        lemma_adds_only_one(m.collector.items, subtrees, urls, ItemKind::Subtree, url);
    }
}

/// A refusal is passed on: the first of the files that is refused ends it, with the error of
/// the plan, and where none is refused all of them are recorded.
#[verifier::spinoff_prover]
pub proof fn law_refused_files_end_the_round(
    m: CrawlModel,
    urls: Seq<UrlParts>,
    jobs: Seq<JobModel>,
    n: nat,
)
    requires
        0 < n <= urls.len(),
        n <= jobs.len(),
    ensures
        ({
            let (before, result) = contents_added(m, urls, (n - 1) as nat);
            let (plan, added) = collector::added(before.collector, urls[n - 1], ItemKind::Content);
            &&& result is Err ==> contents_added(m, urls, n) == (before, result)
            &&& result is Ok ==> contents_added(m, urls, n).1 == added && contents_added(
                m,
                urls,
                n,
            ).0.collector == plan
        }),
        ({
            let (before, result) = buffers_added(m, urls, (n - 1) as nat);
            let (plan, added) = collector::added(before.collector, urls[n - 1], ItemKind::Buffer);
            &&& result is Err ==> buffers_added(m, urls, n) == (before, result)
            &&& result is Ok ==> buffers_added(m, urls, n).1 == added && buffers_added(
                m,
                urls,
                n,
            ).0.collector == plan
        }),
        ({
            let (before, result) = announced(m, jobs, (n - 1) as nat);
            let (plan, added) = collector::added(
                before.collector,
                jobs[n - 1].url,
                ItemKind::Subtree,
            );
            &&& result is Err ==> announced(m, jobs, n) == (before, result)
            &&& result is Ok ==> announced(m, jobs, n).1 == added && announced(
                m,
                jobs,
                n,
            ).0.collector == plan
        }),
{
}

/// The children of a subtree are queued as they were found: in order, in the same implicit
/// tileset, with their own coordinates and documents.
pub proof fn law_children_are_queued_as_found(tiling: nat, children: Seq<ChildModel>)
    ensures
        child_jobs(tiling, children).len() == children.len(),
        forall|k: int|
            0 <= k < children.len() ==> {
                let job = #[trigger] child_jobs(tiling, children)[k];
                &&& job.tiling == tiling
                &&& job.coordinates == children[k].coordinates
                &&& job.url == children[k].url
            },
{
}

/// What a round hands out. As long as tileset documents wait, they all are the round, in the
/// order in which they were met. Then come the subtrees: those of the queue, in order, and
/// before them, once, the root of every implicit tileset. The crawl has finished exactly
/// where none of these is left.
pub proof fn law_rounds_hand_out_what_waits(m: CrawlModel)
    ensures
        ({
            let (after, round) = next_round_of(m);
            &&& m.frontier.len() > 0 ==> {
                &&& round == Ok::<RoundModel, ErrorModel>(RoundModel::Documents(m.frontier))
                &&& after.frontier.len() == 0
                &&& after.queue == m.queue
                &&& after.collector == m.collector
                &&& after.tilings == m.tilings
            }
            &&& m.frontier.len() == 0 && m.expanding ==> {
                &&& m.queue.len() > 0 ==> {
                    let emptied = CrawlModel { queue: Seq::empty(), ..m };
                    let (handed_out, result) = announced(emptied, m.queue, m.queue.len());
                    &&& after == handed_out
                    &&& result is Ok <==> round is Ok
                    &&& result matches Err(error) ==> round == Err::<RoundModel, ErrorModel>(error)
                }
                &&& round is Ok && m.queue.len() > 0 ==> round == Ok::<RoundModel, ErrorModel>(
                    RoundModel::Subtrees(m.queue),
                )
                &&& m.queue.len() == 0 ==> after == m && round == Ok::<RoundModel, ErrorModel>(
                    RoundModel::Finished,
                )
            }
            &&& m.frontier.len() == 0 && !m.expanding ==> (match root_jobs(
                m.tilings,
                m.tilings.len(),
            ) {
                Err(error) => round == Err::<RoundModel, ErrorModel>(error),
                Ok(jobs) => {
                    let waiting = m.queue + jobs;
                    let emptied = CrawlModel { queue: Seq::empty(), expanding: true, ..m };
                    let (handed_out, result) = announced(emptied, waiting, waiting.len());
                    &&& waiting.len() > 0 ==> after == handed_out && (result is Ok <==> round is Ok)
                    &&& waiting.len() > 0 ==> (result matches Err(error) ==> round == Err::<
                        RoundModel,
                        ErrorModel,
                    >(error))
                    &&& after.expanding
                    &&& round is Ok && waiting.len() > 0 ==> round == Ok::<RoundModel, ErrorModel>(
                        RoundModel::Subtrees(waiting),
                    )
                    &&& waiting.len() == 0 ==> round == Ok::<RoundModel, ErrorModel>(
                        RoundModel::Finished,
                    )
                },
            })
        }),
{
    lemma_announcing_keeps_the_rest(m, m.queue, m.queue.len());
    if let Ok(jobs) = root_jobs(m.tilings, m.tilings.len()) {
        let ready = rooted(m, jobs);
        let emptied = CrawlModel { queue: Seq::empty(), ..ready };
        lemma_announcing_keeps_the_rest(emptied, ready.queue, ready.queue.len());
    }
}

proof fn lemma_announcing_keeps_the_rest(m: CrawlModel, jobs: Seq<JobModel>, n: nat)
    ensures
        ({
            let after = announced(m, jobs, n).0;
            &&& after.expanding == m.expanding
            &&& after.frontier == m.frontier
            &&& after.queue == m.queue
            &&& after.tilings == m.tilings
            &&& after.visited == m.visited
        }),
    decreases n,
{
    if n > 0 {
        lemma_announcing_keeps_the_rest(m, jobs, (n - 1) as nat);
    }
}

/// As many files are of a kind as a plan holds of it.
pub proof fn law_kinds_are_counted(items: Seq<ItemModel>, kind: ItemKind)
    ensures
        of_kind(items, kind) == items.filter(|item: ItemModel| item.kind == kind).len(),
    decreases items.len(),
{
    reveal(Seq::filter);
    if items.len() > 0 {
        law_kinds_are_counted(items.drop_last(), kind);
    }
}

/// An expanded subtree is taken in by recording its buffers, then its contents, and then
/// queueing its children behind those that wait. The first refusal ends the crawl with its
/// error, and no child is queued.
pub proof fn law_expansions_are_taken_in_whole(
    m: CrawlModel,
    job: JobModel,
    expansion: ExpansionModel,
)
    ensures
        ({
            let buffers = expansion.external_buffers;
            let contents = expansion.content_urls;
            let (first, fetched) = buffers_added(m, buffers, buffers.len());
            let (second, recorded) = contents_added(first, contents, contents.len());
            let (after, result) = absorbed_expansion(m, job, expansion);
            &&& fetched is Err ==> result == fetched && after == first
            &&& fetched is Ok && recorded is Err ==> result == recorded && after == second
            &&& fetched is Ok && recorded is Ok ==> {
                &&& result is Ok
                &&& after.collector == second.collector
                &&& after.queue.len() == second.queue.len() + expansion.child_subtrees.len()
                &&& after.queue.take(second.queue.len() as int) == second.queue
                &&& forall|k: int|
                    second.queue.len() <= k < after.queue.len() ==> (#[trigger] after.queue[k]).url
                        == expansion.child_subtrees[k - second.queue.len()].url
                &&& after.subtree_files == second.subtree_files
                &&& after.buffer_files == second.buffer_files
            }
            &&& buffers_added(m, buffers, 0) == (m, Ok::<(), ErrorModel>(()))
            &&& contents_added(m, contents, 0) == (m, Ok::<(), ErrorModel>(()))
        }),
{
    let buffers = expansion.external_buffers;
    let contents = expansion.content_urls;
    let (first, fetched) = buffers_added(m, buffers, buffers.len());
    let (second, recorded) = contents_added(first, contents, contents.len());
    let (after, result) = absorbed_expansion(m, job, expansion);
    if fetched is Ok && recorded is Ok {
        assert(after.queue.take(second.queue.len() as int) =~= second.queue);
    }
}

} // verus!
