//! The crawl of a whole site: it ends, and what it ends with misses nothing.
//!
//! A [`Site`] is what the fetched documents hold. [`crawled`] is the crawl of a site,
//! round after round, as long as nothing is refused.

use vstd::prelude::*;

use crate::discovery;
use crate::discovery::{CrawlModel, JobModel, RoundModel, MAX_ITEMS};
use crate::error::ErrorModel;
use crate::implicit;
use crate::implicit::{ExpansionModel, TilingModel, MAX_LEVELS};
use crate::subtree::{LoadedModel, SubtreeModel};
use crate::tileset::{ImplicitSourceModel, ReferenceKind, ReferenceModel, ScanModel};
use crate::web_url;
use crate::web_url::UrlParts;

verus! {

/// What a crawled site holds.
pub struct Site {
    /// What the tileset document at an address references.
    pub documents: spec_fn(Seq<char>) -> ScanModel,
    /// The document of a subtree, with its buffers.
    pub subtrees: spec_fn(JobModel) -> (SubtreeModel, LoadedModel),
}

/// What the subtree of a job makes available, in a crawl that knows `tilings`.
pub open spec fn expanded(site: Site, tilings: Seq<TilingModel>, job: JobModel) -> Result<
    ExpansionModel,
    ErrorModel,
> {
    let (document, loaded) = (site.subtrees)(job);
    implicit::expansion(
        tilings[job.tiling as int],
        job.coordinates,
        job.url,
        document,
        loaded,
    )
}

/// A crawl once the first `n` documents of a round were taken in.
pub open spec fn documents_absorbed(m: CrawlModel, site: Site, batch: Seq<UrlParts>, n: nat) -> (
    CrawlModel,
    Result<(), ErrorModel>,
)
    decreases n,
{
    if n == 0 {
        (m, Ok(()))
    } else {
        let (before, result) = documents_absorbed(m, site, batch, (n - 1) as nat);
        if result is Ok {
            let document = batch[n - 1];
            discovery::absorbed_scan(before, document, (site.documents)(document.text))
        } else {
            (before, result)
        }
    }
}

/// A crawl once the first `n` subtrees of a round were taken in.
pub open spec fn subtrees_absorbed(m: CrawlModel, site: Site, batch: Seq<JobModel>, n: nat) -> (
    CrawlModel,
    Result<(), ErrorModel>,
)
    decreases n,
{
    if n == 0 {
        (m, Ok(()))
    } else {
        let (before, result) = subtrees_absorbed(m, site, batch, (n - 1) as nat);
        if result is Ok {
            match expanded(site, before.tilings, batch[n - 1]) {
                Ok(expansion) => discovery::absorbed_expansion(before, batch[n - 1], expansion),
                Err(error) => (before, Err(error)),
            }
        } else {
            (before, result)
        }
    }
}

/// What the crawl of a site comes to within a number of rounds: the crawl once it has
/// finished, the error that ended it, or nothing where the rounds do not suffice.
pub open spec fn crawled(m: CrawlModel, site: Site, rounds: nat) -> Option<
    Result<CrawlModel, ErrorModel>,
>
    decreases rounds,
{
    if rounds == 0 {
        None
    } else {
        match discovery::next_round_of(m) {
            (_, Err(error)) => Some(Err(error)),
            (after, Ok(RoundModel::Finished)) => Some(Ok(after)),
            (after, Ok(RoundModel::Documents(batch))) => match documents_absorbed(
                after,
                site,
                batch,
                batch.len(),
            ) {
                (next, Ok(_)) => crawled(next, site, (rounds - 1) as nat),
                (_, Err(error)) => Some(Err(error)),
            },
            (after, Ok(RoundModel::Subtrees(batch))) => match subtrees_absorbed(
                after,
                site,
                batch,
                batch.len(),
            ) {
                (next, Ok(_)) => crawled(next, site, (rounds - 1) as nat),
                (_, Err(error)) => Some(Err(error)),
            },
        }
    }
}

/// What a reference of the document at `t` names is in the plan, and, where it is a
/// tileset document, was visited.
pub open spec fn is_followed(m: CrawlModel, t: Seq<char>, reference: ReferenceModel) -> bool {
    &&& web_url::joined_url(t, reference.uri) matches Ok(url)
    &&& m.collector.seen.contains(url.text)
    &&& reference.kind == ReferenceKind::Tileset ==> m.visited.contains(url.text)
}

/// The implicit tileset that the document at `t` declares is known to the crawl.
pub open spec fn is_known(m: CrawlModel, t: Seq<char>, source: ImplicitSourceModel) -> bool {
    exists|k: int|
        0 <= k < m.tilings.len() && (#[trigger] m.tilings[k]).base.text == t
            && implicit::declared_tiling(m.tilings[k].base, source) == Ok::<
            TilingModel,
            ErrorModel,
        >(m.tilings[k])
}

/// Nothing that the document at `t` references was missed.
pub open spec fn is_covered(m: CrawlModel, site: Site, t: Seq<char>) -> bool {
    let scan = (site.documents)(t);
    &&& forall|i: int|
        0 <= i < scan.references.len() ==> is_followed(m, t, #[trigger] scan.references[i])
    &&& forall|i: int|
        0 <= i < scan.implicits.len() ==> is_known(m, t, #[trigger] scan.implicits[i])
}

/// Nothing that a subtree makes available was missed, down to its last descendant:
/// the subtree itself, its buffers, its contents, and so on with its children.
pub open spec fn is_mirrored(m: CrawlModel, site: Site, job: JobModel) -> bool
    decreases MAX_LEVELS - job.coordinates.level,
{
    &&& job.tiling < m.tilings.len()
    &&& m.collector.seen.contains(job.url.text)
    &&& expanded(site, m.tilings, job) matches Ok(expansion)
    &&& all_seen(m, expansion.external_buffers)
    &&& all_seen(m, expansion.content_urls)
    &&& forall|k: int|
        0 <= k < expansion.child_subtrees.len() ==> {
            let child = #[trigger] discovery::child_jobs(
                job.tiling,
                expansion.child_subtrees,
            )[k];
            &&& job.coordinates.level < child.coordinates.level < MAX_LEVELS
            &&& is_mirrored(m, site, child)
        }
}

/// Every one of some URLs is in the plan.
pub open spec fn all_seen(m: CrawlModel, urls: Seq<UrlParts>) -> bool {
    forall|i: int| 0 <= i < urls.len() ==> m.collector.seen.contains((#[trigger] urls[i]).text)
}

/// A crawl that has finished and has missed nothing: the entry document was visited;
/// nothing that a visited document references was missed; and nothing that the
/// root subtree of an implicit tileset, or any of its descendants, makes available.
pub open spec fn is_complete(m: CrawlModel, site: Site) -> bool {
    &&& m.frontier.len() == 0
    &&& m.queue.len() == 0
    &&& m.visited.contains(m.entry.text)
    &&& forall|t: Seq<char>| #[trigger] m.visited.contains(t) ==> is_covered(m, site, t)
    &&& discovery::root_jobs(m.tilings, m.tilings.len()) matches Ok(roots)
    &&& all_mirrored(m, site, roots)
}

/// Every one of some subtrees is mirrored.
pub open spec fn all_mirrored(m: CrawlModel, site: Site, jobs: Seq<JobModel>) -> bool {
    forall|i: int| 0 <= i < jobs.len() ==> is_mirrored(m, site, #[trigger] jobs[i])
}

/// What holds between the documents of a round: the crawl is sound, and whatever
/// was visited waits for the next round, is pending in this one, or is covered.
spec fn keeps_up(m: CrawlModel, site: Site, pending: Seq<UrlParts>) -> bool {
    &&& discovery::is_sound_crawl(m)
    &&& forall|t: Seq<char>| #[trigger]
        m.visited.contains(t) ==> discovery::waits_in(m.frontier, t) || discovery::waits_in(
            pending,
            t,
        ) || is_covered(m, site, t)
}

proof fn lemma_stays_covered(m: CrawlModel, after: CrawlModel, site: Site, t: Seq<char>)
    requires
        discovery::grew(m, after),
        is_covered(m, site, t),
    ensures
        is_covered(after, site, t),
{
    let scan = (site.documents)(t);
    assert forall|i: int| 0 <= i < scan.references.len() implies is_followed(
        after,
        t,
        #[trigger] scan.references[i],
    ) by {
        assert(is_followed(m, t, scan.references[i]));
    }
    assert forall|i: int| 0 <= i < scan.implicits.len() implies is_known(
        after,
        t,
        #[trigger] scan.implicits[i],
    ) by {
        assert(is_known(m, t, scan.implicits[i]));
        let k = choose|k: int|
            0 <= k < m.tilings.len() && (#[trigger] m.tilings[k]).base.text == t
                && implicit::declared_tiling(m.tilings[k].base, scan.implicits[i]) == Ok::<
                TilingModel,
                ErrorModel,
            >(m.tilings[k]);
        assert(after.tilings[k] == m.tilings[k]);
    }
}

#[verifier::spinoff_prover]
proof fn lemma_document_absorbed(
    m: CrawlModel,
    site: Site,
    document: UrlParts,
    pending: Seq<UrlParts>,
    rest: Seq<UrlParts>,
)
    requires
        keeps_up(m, site, pending),
        pending.len() > 0,
        pending[0] == document,
        rest == pending.skip(1),
    ensures
        ({
            let (after, result) = discovery::absorbed_scan(
                m,
                document,
                (site.documents)(document.text),
            );
            result is Ok ==> {
                &&& keeps_up(after, site, rest)
                &&& discovery::grew(m, after)
                &&& after.queue == m.queue
                &&& after.expanding == m.expanding
            }
        }),
{
    let scan = (site.documents)(document.text);
    let (after, result) = discovery::absorbed_scan(m, document, scan);
    discovery::law_scan_is_absorbed(m, document, scan);
    if result is Ok {
        assert(is_covered(after, site, document.text)) by {
            assert forall|i: int| 0 <= i < scan.references.len() implies is_followed(
                after,
                document.text,
                #[trigger] scan.references[i],
            ) by {
                assert(discovery::is_planned(after, document, scan.references[i]));
            }
            assert forall|i: int| 0 <= i < scan.implicits.len() implies is_known(
                after,
                document.text,
                #[trigger] scan.implicits[i],
            ) by {
                let tiling = implicit::declared_tiling(document, scan.implicits[i])->Ok_0;
                assert(after.tilings.contains(tiling));
                let k = choose|k: int| 0 <= k < after.tilings.len() && after.tilings[k] == tiling;
                assert(after.tilings[k].base == document);
            }
        }
        assert forall|t: Seq<char>| #[trigger] after.visited.contains(t) implies
            discovery::waits_in(after.frontier, t) || discovery::waits_in(rest, t) || is_covered(
            after,
            site,
            t,
        ) by {
            if !discovery::waits_in(after.frontier, t) {
                assert(m.visited.contains(t));
                if discovery::waits_in(m.frontier, t) {
                    let i = choose|i: int|
                        0 <= i < m.frontier.len() && (#[trigger] m.frontier[i]).text == t;
                    assert(after.frontier[i].text == t);
                } else if discovery::waits_in(pending, t) {
                    let i = choose|i: int|
                        0 <= i < pending.len() && (#[trigger] pending[i]).text == t;
                    if i > 0 {
                        assert(rest[i - 1].text == t);
                    }
                } else {
                    lemma_stays_covered(m, after, site, t);
                }
            }
        }
    }
}

#[verifier::spinoff_prover]
proof fn lemma_documents_absorbed(m: CrawlModel, site: Site, batch: Seq<UrlParts>, n: nat)
    requires
        keeps_up(m, site, batch),
        n <= batch.len(),
    ensures
        documents_absorbed(m, site, batch, n).1 is Ok ==> {
            let after = documents_absorbed(m, site, batch, n).0;
            &&& keeps_up(after, site, batch.skip(n as int))
            &&& discovery::grew(m, after)
            &&& after.queue == m.queue
            &&& after.expanding == m.expanding
        },
    decreases n,
{
    if n == 0 {
        assert(batch.skip(0) =~= batch);
    } else {
        lemma_documents_absorbed(m, site, batch, (n - 1) as nat);
        let (before, result) = documents_absorbed(m, site, batch, (n - 1) as nat);
        if result is Ok {
            let pending = batch.skip(n - 1);
            assert(pending.skip(1) =~= batch.skip(n as int));
            lemma_document_absorbed(before, site, batch[n - 1], pending, batch.skip(n as int));
            if documents_absorbed(m, site, batch, n).1 is Ok {
                discovery::lemma_grew_further(
                    m,
                    before,
                    documents_absorbed(m, site, batch, n).0,
                );
            }
        }
    }
}

/// A round of documents leaves the crawl as it found it, one round on.
proof fn lemma_document_round(m: CrawlModel, site: Site)
    requires
        keeps_up(m, site, Seq::empty()),
        m.frontier.len() > 0,
    ensures
        ({
            let taken = discovery::next_round_of(m).0;
            let (after, result) = documents_absorbed(taken, site, m.frontier, m.frontier.len());
            result is Ok ==> {
                &&& keeps_up(after, site, Seq::empty())
                &&& discovery::grew(taken, after)
                &&& after.queue == m.queue
                &&& after.expanding == m.expanding
            }
        }),
{
    let taken = discovery::next_round_of(m).0;
    discovery::law_documents_are_taken(m);
    assert forall|t: Seq<char>| #[trigger] taken.visited.contains(t) implies discovery::waits_in(
        taken.frontier,
        t,
    ) || discovery::waits_in(m.frontier, t) || is_covered(taken, site, t) by {
        if !discovery::waits_in(m.frontier, t) {
            assert(is_covered(m, site, t));
            let scan = (site.documents)(t);
            assert forall|i: int| 0 <= i < scan.references.len() implies is_followed(
                taken,
                t,
                #[trigger] scan.references[i],
            ) by {
                assert(is_followed(m, t, scan.references[i]));
            }
            assert forall|i: int| 0 <= i < scan.implicits.len() implies is_known(
                taken,
                t,
                #[trigger] scan.implicits[i],
            ) by {
                assert(is_known(m, t, scan.implicits[i]));
            }
        }
    }
    lemma_documents_absorbed(taken, site, m.frontier, m.frontier.len());
    assert(m.frontier.skip(m.frontier.len() as int) =~= Seq::<UrlParts>::empty());
}

/// What a subtree makes available is in the plan, and its children are queued.
spec fn is_expanded(m: CrawlModel, site: Site, job: JobModel) -> bool {
    &&& expanded(site, m.tilings, job) matches Ok(expansion)
    &&& all_seen(m, expansion.external_buffers)
    &&& all_seen(m, expansion.content_urls)
    &&& forall|k: int|
        0 <= k < expansion.child_subtrees.len() ==> {
            let child = #[trigger] discovery::child_jobs(
                job.tiling,
                expansion.child_subtrees,
            )[k];
            &&& job.coordinates.level < child.coordinates.level < MAX_LEVELS
            &&& m.queue.contains(child)
        }
}

proof fn lemma_stays_expanded(m: CrawlModel, after: CrawlModel, site: Site, job: JobModel)
    requires
        discovery::grew(m, after),
        after.tilings == m.tilings,
        is_expanded(m, site, job),
    ensures
        is_expanded(after, site, job),
{
    let expansion = expanded(site, m.tilings, job)->Ok_0;
    let children = discovery::child_jobs(job.tiling, expansion.child_subtrees);
    assert forall|k: int| 0 <= k < children.len() implies after.queue.contains(
        #[trigger] children[k],
    ) by {
        assert(m.queue.contains(children[k]));
        let i = choose|i: int| 0 <= i < m.queue.len() && m.queue[i] == children[k];
        assert(after.queue[i] == children[k]);
    }
}

#[verifier::spinoff_prover]
proof fn lemma_subtree_absorbed(m: CrawlModel, site: Site, job: JobModel)
    requires
        discovery::is_sound_crawl(m),
        discovery::is_reachable(m, job),
    ensures
        ({
            let expansion = expanded(site, m.tilings, job);
            expansion matches Ok(e) && discovery::absorbed_expansion(m, job, e).1 is Ok ==> {
                let after = discovery::absorbed_expansion(m, job, expansion->Ok_0).0;
                &&& discovery::is_sound_crawl(after)
                &&& discovery::grew(m, after)
                &&& discovery::same_documents(m, after)
                &&& is_expanded(after, site, job)
                &&& forall|i: int|
                    m.queue.len() <= i < after.queue.len() ==> job.coordinates.level < (
                    #[trigger] after.queue[i]).coordinates.level
            }
        }),
{
    if let Ok(expansion) = expanded(site, m.tilings, job) {
        let (document, loaded) = (site.subtrees)(job);
        discovery::law_expansion_is_absorbed(m, job, document, loaded, expansion);
        let (after, result) = discovery::absorbed_expansion(m, job, expansion);
        if result is Ok {
            let children = discovery::child_jobs(job.tiling, expansion.child_subtrees);
            assert forall|k: int| 0 <= k < children.len() implies job.coordinates.level < (
            #[trigger] children[k]).coordinates.level < MAX_LEVELS && after.queue.contains(
                children[k],
            ) by {
                assert(after.queue[m.queue.len() + k] == children[k]);
            }
        }
    }
}

#[verifier::spinoff_prover]
proof fn lemma_subtrees_keep_sound(m: CrawlModel, site: Site, batch: Seq<JobModel>, n: nat)
    requires
        discovery::is_sound_crawl(m),
        n <= batch.len(),
        forall|i: int| 0 <= i < batch.len() ==> discovery::is_reachable(m, #[trigger] batch[i]),
    ensures
        subtrees_absorbed(m, site, batch, n).1 is Ok ==> {
            let after = subtrees_absorbed(m, site, batch, n).0;
            &&& discovery::is_sound_crawl(after)
            &&& discovery::grew(m, after)
            &&& discovery::same_documents(m, after)
        },
    decreases n,
{
    if n > 0 {
        lemma_subtrees_keep_sound(m, site, batch, (n - 1) as nat);
        let (before, result) = subtrees_absorbed(m, site, batch, (n - 1) as nat);
        let (after, all) = subtrees_absorbed(m, site, batch, n);
        if result is Ok && all is Ok {
            assert(discovery::is_reachable(before, batch[n - 1])) by {
                assert(discovery::is_reachable(m, batch[n - 1]));
            }
            lemma_subtree_absorbed(before, site, batch[n - 1]);
            discovery::lemma_grew_further(m, before, after);
        }
    }
}

#[verifier::spinoff_prover]
proof fn lemma_subtrees_absorbed(
    m: CrawlModel,
    site: Site,
    batch: Seq<JobModel>,
    n: nat,
    level: nat,
)
    requires
        discovery::is_sound_crawl(m),
        m.queue.len() == 0,
        n <= batch.len(),
        forall|i: int|
            0 <= i < batch.len() ==> discovery::is_reachable(m, #[trigger] batch[i])
                && level <= batch[i].coordinates.level,
    ensures
        subtrees_absorbed(m, site, batch, n).1 is Ok ==> {
            let after = subtrees_absorbed(m, site, batch, n).0;
            &&& forall|i: int| 0 <= i < n ==> is_expanded(after, site, #[trigger] batch[i])
            &&& forall|i: int|
                0 <= i < after.queue.len() ==> level < (#[trigger] after.queue[i]).coordinates.level
        },
    decreases n,
{
    if n > 0 {
        lemma_subtrees_absorbed(m, site, batch, (n - 1) as nat, level);
        lemma_subtrees_keep_sound(m, site, batch, (n - 1) as nat);
        let (before, result) = subtrees_absorbed(m, site, batch, (n - 1) as nat);
        let (after, all) = subtrees_absorbed(m, site, batch, n);
        if result is Ok && all is Ok {
            assert(discovery::is_reachable(before, batch[n - 1])) by {
                assert(discovery::is_reachable(m, batch[n - 1]));
            }
            lemma_subtree_absorbed(before, site, batch[n - 1]);
            assert forall|i: int| 0 <= i < n implies is_expanded(
                after,
                site,
                #[trigger] batch[i],
            ) by {
                if i < n - 1 {
                    lemma_stays_expanded(before, after, site, batch[i]);
                }
            }
            assert forall|i: int| 0 <= i < after.queue.len() implies level < (
            #[trigger] after.queue[i]).coordinates.level by {
                if i < before.queue.len() {
                    assert(after.queue[i] == before.queue[i]);
                } else {
                    assert(level <= batch[n - 1].coordinates.level);
                }
            }
        }
    }
}

/// A round of subtrees takes everything in, and leads one level down.
#[verifier::spinoff_prover]
proof fn lemma_subtree_round(m: CrawlModel, site: Site, level: nat)
    requires
        discovery::is_sound_crawl(m),
        m.queue.len() > 0,
        forall|i: int| 0 <= i < m.queue.len() ==> level <= (#[trigger] m.queue[i]).coordinates.level,
    ensures
        ({
            let (taken, round) = discovery::subtree_round(m);
            let (after, result) = subtrees_absorbed(taken, site, m.queue, m.queue.len());
            round is Ok && result is Ok ==> {
                &&& discovery::is_sound_crawl(after)
                &&& discovery::grew(CrawlModel { queue: Seq::empty(), ..m }, after)
                &&& discovery::same_documents(m, after)
                &&& forall|i: int|
                    0 <= i < m.queue.len() ==> after.collector.seen.contains(
                        (#[trigger] m.queue[i]).url.text,
                    ) && is_expanded(after, site, m.queue[i])
                &&& forall|i: int|
                    0 <= i < after.queue.len() ==> level < (
                    #[trigger] after.queue[i]).coordinates.level
            }
        }),
{
    let emptied = CrawlModel { queue: Seq::empty(), ..m };
    discovery::lemma_queue_is_emptied(m);
    discovery::law_subtrees_are_announced(emptied, m.queue, m.queue.len());
    let (taken, round) = discovery::subtree_round(m);
    if round is Ok {
        assert forall|i: int| 0 <= i < m.queue.len() implies discovery::is_reachable(
            taken,
            #[trigger] m.queue[i],
        ) && level <= m.queue[i].coordinates.level by {
            assert(discovery::is_reachable(m, m.queue[i]));
        }
        lemma_subtrees_absorbed(taken, site, m.queue, m.queue.len(), level);
        lemma_subtrees_keep_sound(taken, site, m.queue, m.queue.len());
        let (after, result) = subtrees_absorbed(taken, site, m.queue, m.queue.len());
        if result is Ok {
            discovery::lemma_grew_further(emptied, taken, after);
        }
    }
}

/// A job that was expanded is mirrored once everything that was queued then is.
proof fn lemma_children_are_mirrored(m: CrawlModel, end: CrawlModel, site: Site, job: JobModel)
    requires
        is_expanded(m, site, job),
        job.tiling < m.tilings.len(),
        m.collector.seen.contains(job.url.text),
        m.collector.seen.subset_of(end.collector.seen),
        end.tilings == m.tilings,
        all_mirrored(end, site, m.queue),
    ensures
        is_mirrored(end, site, job),
{
    let expansion = expanded(site, m.tilings, job)->Ok_0;
    let children = discovery::child_jobs(job.tiling, expansion.child_subtrees);
    assert forall|k: int| 0 <= k < children.len() implies job.coordinates.level < (
    #[trigger] children[k]).coordinates.level < MAX_LEVELS && is_mirrored(
        end,
        site,
        children[k],
    ) by {
        assert(m.queue.contains(children[k]));
        let i = choose|i: int| 0 <= i < m.queue.len() && m.queue[i] == children[k];
        assert(is_mirrored(end, site, m.queue[i]));
    }
}

/// The subtrees of a crawl that is expanding them: once it has finished, all that
/// were queued are mirrored.
#[verifier::spinoff_prover]
proof fn lemma_expanding(m: CrawlModel, site: Site, rounds: nat)
    requires
        discovery::is_sound_crawl(m),
        m.expanding,
        m.frontier.len() == 0,
    ensures
        crawled(m, site, rounds) matches Some(Ok(end)) ==> {
            &&& discovery::is_sound_crawl(end)
            &&& discovery::same_documents(m, end)
            &&& m.collector.seen.subset_of(end.collector.seen)
            &&& end.queue.len() == 0
            &&& all_mirrored(end, site, m.queue)
        },
    decreases rounds,
{
    if rounds > 0 && m.queue.len() > 0 {
        let (taken, round) = discovery::subtree_round(m);
        lemma_subtree_round(m, site, 0);
        let (next, result) = subtrees_absorbed(taken, site, m.queue, m.queue.len());
        if round is Ok && result is Ok {
            lemma_expanding(next, site, (rounds - 1) as nat);
            if let Some(Ok(end)) = crawled(m, site, rounds) {
                assert forall|i: int| 0 <= i < m.queue.len() implies is_mirrored(
                    end,
                    site,
                    #[trigger] m.queue[i],
                ) by {
                    assert(discovery::is_reachable(m, m.queue[i]));
                    lemma_children_are_mirrored(next, end, site, m.queue[i]);
                }
            }
        }
    }
}

proof fn lemma_crawled(m: CrawlModel, site: Site, rounds: nat)
    requires
        keeps_up(m, site, Seq::empty()),
        !m.expanding,
        m.queue.len() == 0,
    ensures
        crawled(m, site, rounds) matches Some(Ok(end)) ==> {
            &&& discovery::is_sound_crawl(end)
            &&& is_complete(end, site)
            &&& end.entry == m.entry
        },
    decreases rounds,
{
    if rounds == 0 {
    } else if m.frontier.len() > 0 {
        lemma_document_round(m, site);
        let taken = discovery::next_round_of(m).0;
        let (next, result) = documents_absorbed(taken, site, m.frontier, m.frontier.len());
        if result is Ok {
            lemma_crawled(next, site, (rounds - 1) as nat);
        }
    } else {
        discovery::law_roots_are_queued(m);
        if let Ok(roots) = discovery::root_jobs(m.tilings, m.tilings.len()) {
            let start = discovery::rooted(m, roots);
            assert(start.queue =~= roots);
            lemma_expanding(start, site, rounds);
            assert(crawled(start, site, rounds) == crawled(m, site, rounds));
            if let Some(Ok(end)) = crawled(m, site, rounds) {
                assert forall|t: Seq<char>| #[trigger] end.visited.contains(t) implies is_covered(
                    end,
                    site,
                    t,
                ) by {
                    assert(is_covered(m, site, t));
                    let scan = (site.documents)(t);
                    assert forall|i: int| 0 <= i < scan.references.len() implies is_followed(
                        end,
                        t,
                        #[trigger] scan.references[i],
                    ) by {
                        assert(is_followed(m, t, scan.references[i]));
                    }
                    assert forall|i: int| 0 <= i < scan.implicits.len() implies is_known(
                        end,
                        t,
                        #[trigger] scan.implicits[i],
                    ) by {
                        assert(is_known(m, t, scan.implicits[i]));
                    }
                }
            }
        }
    }
}

/// The crawl of a site misses nothing: where it comes to an end without an error,
/// every document that was visited has all its references in the plan and all its
/// tileset references visited, from the entry document on; and every implicit tileset
/// that one of them declares has all its subtrees, their buffers and their contents
/// in the plan.
pub proof fn law_crawl_is_complete(entry: UrlParts, base: UrlParts, site: Site, rounds: nat)
    ensures
        discovery::started(entry, base) matches Ok(start) ==> (crawled(
            start,
            site,
            rounds,
        ) matches Some(Ok(end)) ==> {
            &&& discovery::is_sound_crawl(end)
            &&& is_complete(end, site)
            &&& end.entry == entry
        }),
{
    discovery::law_start_is_sound(entry, base);
    if let Ok(start) = discovery::started(entry, base) {
        assert forall|t: Seq<char>| #[trigger] start.visited.contains(t) implies
            discovery::waits_in(start.frontier, t) by {
            assert(start.frontier[0].text == t);
        }
        lemma_crawled(start, site, rounds);
    }
}

/// The document at `from` names the document at `to` as an external tileset.
pub open spec fn leads_to(site: Site, from: Seq<char>, to: Seq<char>) -> bool {
    let references = (site.documents)(from).references;
    exists|i: int|
        0 <= i < references.len() && (#[trigger] references[i]).kind == ReferenceKind::Tileset && (
        web_url::joined_url(from, references[i].uri) matches Ok(url) && url.text == to)
}

/// External tilesets are followed however many documents lie between: a complete
/// crawl has every document in its plan to which a chain of references leads from
/// the entry document, and everything it references.
pub proof fn law_every_document_is_reached(m: CrawlModel, site: Site, chain: Seq<Seq<char>>)
    requires
        discovery::is_sound_crawl(m),
        is_complete(m, site),
        chain.len() > 0,
        chain[0] == m.entry.text,
        forall|k: int|
            0 <= k < chain.len() - 1 ==> leads_to(site, #[trigger] chain[k], chain[k + 1]),
    ensures
        m.collector.seen.contains(chain.last()),
        is_covered(m, site, chain.last()),
    decreases chain.len(),
{
    assert(m.visited.contains(chain.last())) by {
        if chain.len() > 1 {
            let shorter = chain.drop_last();
            assert forall|k: int| 0 <= k < shorter.len() - 1 implies leads_to(
                site,
                #[trigger] shorter[k],
                shorter[k + 1],
            ) by {
                assert(leads_to(site, chain[k], chain[k + 1]));
            }
            law_every_document_is_reached(m, site, shorter);
            let from = shorter.last();
            assert(leads_to(site, chain[chain.len() - 2], chain[chain.len() - 1]));
            let references = (site.documents)(from).references;
            let i = choose|i: int|
                0 <= i < references.len() && (#[trigger] references[i]).kind
                    == ReferenceKind::Tileset && (web_url::joined_url(
                    from,
                    references[i].uri,
                ) matches Ok(url) && url.text == chain.last());
            assert(is_followed(m, from, references[i]));
        }
    }
}

/// A round of subtrees ends the crawl, or leads one level down.
proof fn lemma_expanding_ends(m: CrawlModel, site: Site, rounds: nat, level: nat)
    requires
        discovery::is_sound_crawl(m),
        m.expanding,
        m.frontier.len() == 0,
        forall|i: int| 0 <= i < m.queue.len() ==> level <= (#[trigger] m.queue[i]).coordinates.level,
        rounds > 0,
        level + rounds > MAX_LEVELS,
    ensures
        crawled(m, site, rounds) is Some,
    decreases rounds,
{
    if m.queue.len() > 0 {
        assert(discovery::is_reachable(m, m.queue[0]));
        lemma_subtree_round(m, site, level);
        let (taken, round) = discovery::subtree_round(m);
        let (next, result) = subtrees_absorbed(taken, site, m.queue, m.queue.len());
        if round is Ok && result is Ok {
            lemma_expanding_ends(next, site, (rounds - 1) as nat, level + 1);
        }
    }
}

/// How many documents can still be visited for the first time.
spec fn unvisited(m: CrawlModel) -> int {
    MAX_ITEMS - m.visited.len()
}

/// A round of documents either queues none, or visits one for the first time.
proof fn lemma_round_visits(m: CrawlModel, site: Site)
    requires
        keeps_up(m, site, Seq::empty()),
        m.frontier.len() > 0,
    ensures
        ({
            let taken = discovery::next_round_of(m).0;
            let (after, result) = documents_absorbed(taken, site, m.frontier, m.frontier.len());
            result is Ok ==> {
                &&& 0 <= unvisited(after) <= unvisited(m)
                &&& after.frontier.len() > 0 ==> unvisited(after) < unvisited(m)
            }
        }),
{
    let taken = discovery::next_round_of(m).0;
    let (after, result) = documents_absorbed(taken, site, m.frontier, m.frontier.len());
    lemma_document_round(m, site);
    if result is Ok {
        discovery::law_documents_are_bounded(m);
        discovery::law_documents_are_bounded(after);
        assert(m.visited.subset_of(after.visited));
        vstd::set_lib::lemma_len_subset(m.visited, after.visited);
        if after.frontier.len() > 0 {
            let t = after.frontier[0].text;
            assert(!m.visited.contains(t));
            assert(after.visited.contains(t));
            assert(m.visited.insert(t).subset_of(after.visited));
            vstd::set_lib::lemma_len_subset(m.visited.insert(t), after.visited);
        }
    }
}

proof fn lemma_crawl_ends(m: CrawlModel, site: Site, rounds: nat)
    requires
        keeps_up(m, site, Seq::empty()),
        !m.expanding,
        m.queue.len() == 0,
        m.frontier.len() == 0 ==> rounds > MAX_LEVELS,
        m.frontier.len() > 0 ==> rounds > unvisited(m) + 1 + MAX_LEVELS,
    ensures
        crawled(m, site, rounds) is Some,
    decreases rounds,
{
    if m.frontier.len() > 0 {
        discovery::law_documents_are_bounded(m);
        lemma_document_round(m, site);
        lemma_round_visits(m, site);
        let taken = discovery::next_round_of(m).0;
        let (next, result) = documents_absorbed(taken, site, m.frontier, m.frontier.len());
        if result is Ok {
            lemma_crawl_ends(next, site, (rounds - 1) as nat);
        }
    } else {
        discovery::law_roots_are_queued(m);
        if let Ok(roots) = discovery::root_jobs(m.tilings, m.tilings.len()) {
            lemma_expanding_ends(discovery::rooted(m, roots), site, rounds, 0);
        }
    }
}

/// The crawl of every site ends, whatever its documents hold: reference cycles are
/// harmless, and a malformed bitstream cannot make it spin forever.
pub proof fn law_crawl_ends(entry: UrlParts, base: UrlParts, site: Site)
    ensures
        discovery::started(entry, base) matches Ok(start) ==> crawled(
            start,
            site,
            (MAX_ITEMS + MAX_LEVELS + 2) as nat,
        ) is Some,
{
    discovery::law_start_is_sound(entry, base);
    if let Ok(start) = discovery::started(entry, base) {
        assert forall|t: Seq<char>| #[trigger] start.visited.contains(t) implies
            discovery::waits_in(start.frontier, t) by {
            assert(start.frontier[0].text == t);
        }
        lemma_crawl_ends(start, site, (MAX_ITEMS + MAX_LEVELS + 2) as nat);
    }
}

} // verus!
