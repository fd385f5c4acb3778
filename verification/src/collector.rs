//! The download plan while it grows: every file once, no two on the same path.

use vstd::hash_map::StringHashMap;
use vstd::hash_set::StringHashSet;
use vstd::prelude::*;

use crate::error;
use crate::error::{Error, ErrorModel, Result};
use crate::local_path;
use crate::local_path::{Component, LocalPath, Part};
use crate::path_util;
use crate::text;
use crate::web_url::{Url, UrlParts};

verus! {

/// Hard ceiling on the size of a download plan.
///
/// A constant-`1` `childSubtreeAvailability` with a large `availableLevels`
/// describes an astronomically large tree. That is either a corrupt document or
/// a deliberate way to make a client exhaust memory, so the crawl stops with a
/// clear error instead of trying.
pub const MAX_ITEMS: usize = 5_000_000;

/// What a discovered file is, for logging and categorising.
#[derive(Debug, Clone, Copy, PartialEq, Eq, Structural)]
pub enum ItemKind {
    /// A `tileset.json` document, including the entry document.
    Tileset,
    /// An implicit tiling `.subtree` document.
    Subtree,
    /// A buffer referenced by a subtree's `buffers[].uri`.
    Buffer,
    /// Tile payload: `b3dm`, `i3dm`, `pnts`, `cmpt`, `glb`, ...
    Content,
}

/// The name of a kind of file.
pub open spec fn label_of(kind: ItemKind) -> Seq<char> {
    match kind {
        ItemKind::Tileset => "tileset"@,
        ItemKind::Subtree => "subtree"@,
        ItemKind::Buffer => "buffer"@,
        ItemKind::Content => "content"@,
    }
}

impl ItemKind {
    /// Short human-readable name, for `--dry-run` output.
    pub fn label(self) -> (label: &'static str)
        ensures
            label@ == label_of(self),
    {
        match self {
            ItemKind::Tileset => "tileset",
            ItemKind::Subtree => "subtree",
            ItemKind::Buffer => "buffer",
            ItemKind::Content => "content",
        }
    }
}

/// One file to fetch, and where it belongs locally.
#[derive(Debug, Clone)]
pub struct DownloadItem {
    /// Absolute URL to fetch.
    pub url: Url,
    /// Path relative to the output directory, always a safe nested path.
    pub relative_path: LocalPath,
    /// What kind of file this is.
    pub kind: ItemKind,
}

/// What a [`DownloadItem`] stands for.
#[verifier::ext_equal]
pub struct ItemModel {
    pub url: UrlParts,
    pub path: Seq<char>,
    pub kind: ItemKind,
}

impl View for DownloadItem {
    type V = ItemModel;

    open spec fn view(&self) -> ItemModel {
        ItemModel { url: self.url@, path: self.relative_path@, kind: self.kind }
    }
}

/// What a list of items stands for.
pub open spec fn item_views(items: Seq<DownloadItem>) -> Seq<ItemModel> {
    items.map_values(|item: DownloadItem| item@)
}

/// The names among the components of a path.
pub open spec fn names_of(parts: Seq<Part>) -> Seq<Seq<char>>
    decreases parts.len(),
{
    if parts.len() == 0 {
        Seq::empty()
    } else {
        match parts.last() {
            Part::Name(name) => names_of(parts.drop_last()).push(name),
            _ => names_of(parts.drop_last()),
        }
    }
}

/// The text by which a path is found again: its names, joined.
pub open spec fn path_key(path: Seq<char>) -> Seq<char> {
    text::join(names_of(local_path::parts(path)), '/')
}

/// What a [`Collector`] stands for.
#[verifier::ext_equal]
pub struct CollectorModel {
    /// The folder that local paths are relative to.
    pub base: UrlParts,
    /// The plan so far, in the order of discovery.
    pub items: Seq<ItemModel>,
    /// The URLs that were met.
    pub seen: Set<Seq<char>>,
    /// For each local path, by its key, the URL that claimed it.
    pub owners: Map<Seq<char>, Seq<char>>,
}

/// Accumulates download items, rejecting duplicates and path collisions.
pub struct Collector {
    /// The directory holding the entry `tileset.json`; the local tree mirrors
    /// the URL relative to this.
    base: Url,
    items: Vec<DownloadItem>,
    seen_urls: StringHashSet,
    path_owner: StringHashMap<String>,
}

impl View for Collector {
    type V = CollectorModel;

    closed spec fn view(&self) -> CollectorModel {
        CollectorModel {
            base: self.base@,
            items: item_views(self.items@),
            seen: self.seen_urls@,
            owners: self.path_owner@.map_values(|owner: String| owner@),
        }
    }
}

/// What recording a URL does: the plan afterwards, and whether it went well.
///
/// URLs already seen are ignored; two *different* URLs that would land on the same
/// file are an error, because silently letting one overwrite the other would corrupt
/// the mirror.
pub open spec fn added(c: CollectorModel, url: UrlParts, kind: ItemKind) -> (
    CollectorModel,
    core::result::Result<(), ErrorModel>,
) {
    if c.seen.contains(url.text) {
        (c, Ok(()))
    } else {
        let met = CollectorModel { seen: c.seen.insert(url.text), ..c };
        if c.items.len() >= MAX_ITEMS {
            (met, Err(ErrorModel::TooManyItems { limit: MAX_ITEMS }))
        } else {
            match path_util::output_path(url, c.base) {
                Err(error) => (met, Err(error)),
                Ok(path) => {
                    let key = path_key(path);
                    if c.owners.contains_key(key) && c.owners[key] != url.text {
                        (
                            met,
                            Err(
                                ErrorModel::PathCollision {
                                    path,
                                    first: c.owners[key],
                                    second: url.text,
                                },
                            ),
                        )
                    } else {
                        (
                            CollectorModel {
                                items: c.items.push(ItemModel { url, path, kind }),
                                owners: c.owners.insert(key, url.text),
                                ..met
                            },
                            Ok(()),
                        )
                    }
                },
            }
        }
    }
}

fn key_of(path: &LocalPath) -> (key: String)
    ensures
        key@ == path_key(path@),
{
    let components = path.components();
    let ghost parts = local_path::parts(path@);
    let mut key = String::new();
    let mut any = false;
    let mut i: usize = 0;
    assert(names_of(parts.take(0)) =~= Seq::<Seq<char>>::empty());
    while i < components.len()
        invariant
            i <= components.len(),
            local_path::components_view(components@) == parts,
            key@ == text::join(names_of(parts.take(i as int)), '/'),
            any == (names_of(parts.take(i as int)).len() > 0),
        decreases components.len() - i,
    {
        let ghost before = names_of(parts.take(i as int));
        proof {
            assert(parts.take(i + 1).drop_last() =~= parts.take(i as int));
            assert(parts.take(i + 1).last() == components@[i as int]@);
        }
        if let Component::Normal(name) = &components[i] {
            assert(before.push(name@).drop_last() =~= before);
            if any {
                key.push('/');
            }
            key.append(name.as_str());
            proof {
                if !any {
                    assert(Seq::<char>::empty() + name@ =~= name@);
                }
            }
            any = true;
        }
        i += 1;
    }
    assert(parts.take(parts.len() as int) =~= parts);
    key
}

impl Collector {
    /// A collector that maps every URL relative to `base` (see
    /// [`crate::path_util::relative_output_path`]).
    pub fn new(base: Url) -> (collector: Collector)
        ensures
            collector@ == (CollectorModel {
                base: base@,
                items: Seq::empty(),
                seen: Set::empty(),
                owners: Map::empty(),
            }),
    {
        let collector = Collector {
            base,
            items: Vec::new(),
            seen_urls: StringHashSet::new(),
            path_owner: StringHashMap::new(),
        };
        assert(item_views(collector.items@) =~= Seq::<ItemModel>::empty());
        assert(collector@.owners =~= Map::<Seq<char>, Seq<char>>::empty());
        collector
    }

    /// The plan so far, in the order of discovery.
    pub fn items(&self) -> (items: &Vec<DownloadItem>)
        ensures
            item_views(items@) == self@.items,
    {
        &self.items
    }

    /// Whether a URL was met before.
    pub fn holds(&self, url: &Url) -> (met: bool)
        ensures
            met == self@.seen.contains(url@.text),
    {
        self.seen_urls.contains(url.as_str())
    }

    /// Gives the plan away.
    pub fn into_items(self) -> (items: Vec<DownloadItem>)
        ensures
            item_views(items@) == self@.items,
    {
        self.items
    }

    /// Records a URL once.
    pub fn add(&mut self, url: Url, kind: ItemKind) -> (out: Result<()>)
        ensures
            (final(self)@, error::done(out)) == added(old(self)@, url@, kind),
    {
        let ghost start = self@;
        let ghost parts = url@;
        let key = url.as_str().to_owned();
        if !self.seen_urls.insert(key.clone()) {
            assert(self@ =~= start) by {
                assert(start.seen.insert(key@) =~= start.seen);
            }
            return Ok(());
        }
        if self.items.len() >= MAX_ITEMS {
            return Err(Error::TooManyItems { limit: MAX_ITEMS });
        }
        let relative_path = path_util::relative_output_path(&url, &self.base)?;
        let place = key_of(&relative_path);
        if let Some(first) = self.path_owner.get(place.as_str()) {
            assert(start.owners.contains_key(place@) && start.owners[place@] == first@);
            if !text::same_text(first.as_str(), key.as_str()) {
                return Err(
                    Error::PathCollision {
                        path: relative_path,
                        first: first.clone(),
                        second: key,
                    },
                );
            }
        }
        let ghost path = relative_path@;
        let ghost owners = self.path_owner@;
        self.path_owner.insert(place, key);
        self.items.push(DownloadItem { url, relative_path, kind });
        proof {
            let item = ItemModel { url: parts, path, kind };
            assert(self@.items =~= start.items.push(item));
            assert(self@.owners =~= start.owners.insert(place@, key@));
        }
        Ok(())
    }
}

proof fn lemma_all_names(parts: Seq<Part>)
    requires
        forall|i: int| 0 <= i < parts.len() ==> #[trigger] parts[i] is Name,
    ensures
        names_of(parts).len() == parts.len(),
        forall|i: int|
            0 <= i < parts.len() ==> #[trigger] parts[i] == Part::Name(names_of(parts)[i]),
    decreases parts.len(),
{
    if parts.len() > 0 {
        let front = parts.drop_last();
        assert(parts[parts.len() - 1] is Name);
        lemma_all_names(front);
        assert forall|i: int| 0 <= i < parts.len() implies #[trigger] parts[i] == Part::Name(
            names_of(parts)[i],
        ) by {
            if i < front.len() {
                assert(front[i] == Part::Name(names_of(front)[i]));
            }
        }
    }
}

/// Two nested paths have the same key exactly when they have the same components,
/// that is, when they name the same file.
pub proof fn law_keys_identify_paths(a: Seq<char>, b: Seq<char>)
    requires
        local_path::is_nested(a),
        local_path::is_nested(b),
    ensures
        path_key(a) == path_key(b) <==> local_path::parts(a) == local_path::parts(b),
{
    let (p, q) = (local_path::parts(a), local_path::parts(b));
    lemma_all_names(p);
    lemma_all_names(q);
    lemma_names_split(a);
    lemma_names_split(b);
    if path_key(a) == path_key(b) {
        assert(names_of(p) == names_of(q));
        assert(p =~= q);
    }
}

proof fn lemma_names_split(path: Seq<char>)
    requires
        local_path::is_nested(path),
    ensures
        text::split(path_key(path), '/') == names_of(local_path::parts(path)),
{
    let parts = local_path::parts(path);
    let names = names_of(parts);
    lemma_all_names(parts);
    local_path::lemma_components_free_of_slash(path);
    assert forall|i: int| 0 <= i < names.len() implies !(#[trigger] names[i]).contains('/') by {
        assert(parts[i] == Part::Name(names[i]));
    }
    text::lemma_split_join(names, '/');
}

/// What holds of every plan, whatever was refused: it has no more files than the
/// ceiling allows, no URL is in it twice, every file has the local path of its URL,
/// and every local path belongs to the URL that claimed it.
pub open spec fn is_orderly(c: CollectorModel) -> bool {
    &&& c.items.len() <= MAX_ITEMS
    &&& forall|i: int| 0 <= i < c.items.len() ==> c.seen.contains((#[trigger] c.items[i]).url.text)
    &&& forall|i: int, j: int|
        0 <= i < j < c.items.len() ==> (#[trigger] c.items[i]).url.text != (
        #[trigger] c.items[j]).url.text
    &&& forall|i: int|
        0 <= i < c.items.len() ==> path_util::output_path((#[trigger] c.items[i]).url, c.base)
            == Ok::<Seq<char>, ErrorModel>(c.items[i].path)
    &&& forall|i: int|
        0 <= i < c.items.len() ==> c.owners.contains_key(path_key((#[trigger] c.items[i]).path))
            && c.owners[path_key(c.items[i].path)] == c.items[i].url.text
    &&& forall|k: Seq<char>| #[trigger]
        c.owners.contains_key(k) ==> c.seen.contains(c.owners[k])
}

/// What holds of a plan as long as nothing was refused: it is orderly, and every URL
/// that was met is in it.
pub open spec fn is_consistent(c: CollectorModel) -> bool {
    &&& is_orderly(c)
    &&& forall|t: Seq<char>| #[trigger]
        c.seen.contains(t) ==> exists|i: int|
            0 <= i < c.items.len() && (#[trigger] c.items[i]).url.text == t
}

/// The empty plan is consistent.
pub proof fn law_empty_plan_is_consistent(base: UrlParts)
    ensures
        is_consistent(
            CollectorModel {
                base,
                items: Seq::empty(),
                seen: Set::empty(),
                owners: Map::empty(),
            },
        ),
{
}

/// Recording a URL keeps the plan orderly, whether the URL is recorded or refused; a
/// refusal leaves the files of the plan as they are.
pub proof fn law_adding_keeps_order(c: CollectorModel, url: UrlParts, kind: ItemKind)
    requires
        is_orderly(c),
    ensures
        ({
            let (after, result) = added(c, url, kind);
            &&& is_orderly(after)
            &&& after.base == c.base
            &&& c.items.is_prefix_of(after.items)
            &&& result is Err ==> after.items == c.items
        }),
{
    let (after, result) = added(c, url, kind);
    if result is Ok && !c.seen.contains(url.text) {
        let path = path_util::output_path(url, c.base)->Ok_0;
        let key = path_key(path);
        let n = c.items.len() as int;
        assert forall|i: int| 0 <= i < after.items.len() implies after.owners.contains_key(
            path_key((#[trigger] after.items[i]).path),
        ) && after.owners[path_key(after.items[i].path)] == after.items[i].url.text by {
            if i < n {
                assert(after.items[i] == c.items[i]);
                if path_key(c.items[i].path) == key {
                    assert(c.owners[key] == c.items[i].url.text);
                    assert(c.seen.contains(c.items[i].url.text));
                }
            }
        }
        assert forall|i: int, j: int| 0 <= i < j < after.items.len() implies (
        #[trigger] after.items[i]).url.text != (#[trigger] after.items[j]).url.text by {
            assert(c.seen.contains(c.items[i].url.text));
        }
    }
}

/// Recording a URL keeps the plan consistent, unless the URL is refused; the URL is
/// in the plan afterwards, and nothing that was in the plan has changed.
pub proof fn law_adding_keeps_consistency(c: CollectorModel, url: UrlParts, kind: ItemKind)
    requires
        is_consistent(c),
    ensures
        added(c, url, kind).1 is Ok ==> {
            let after = added(c, url, kind).0;
            &&& is_consistent(after)
            &&& after.seen == c.seen.insert(url.text)
            &&& after.base == c.base
            &&& c.items.is_prefix_of(after.items)
            &&& exists|i: int|
                0 <= i < after.items.len() && (#[trigger] after.items[i]).url.text == url.text
        },
{
    let after = added(c, url, kind).0;
    law_adding_keeps_order(c, url, kind);
    if added(c, url, kind).1 is Ok {
        if c.seen.contains(url.text) {
            assert(c.seen.insert(url.text) =~= c.seen);
        } else {
            assert(after.items[c.items.len() as int].url.text == url.text);
            assert forall|t: Seq<char>| #[trigger] after.seen.contains(t) implies exists|i: int|
                0 <= i < after.items.len() && (#[trigger] after.items[i]).url.text == t by {
                if t != url.text {
                    assert(c.seen.contains(t));
                    let i = choose|i: int|
                        0 <= i < c.items.len() && (#[trigger] c.items[i]).url.text == t;
                    assert(after.items[i].url.text == t);
                }
            }
        }
    }
}

/// No two files of an orderly plan share a URL or a local path.
pub proof fn law_paths_are_unique(c: CollectorModel, i: int, j: int)
    requires
        is_orderly(c),
        0 <= i < j < c.items.len(),
    ensures
        c.items[i].url.text != c.items[j].url.text,
        local_path::parts(c.items[i].path) != local_path::parts(c.items[j].path),
{
    let (a, b) = (c.items[i], c.items[j]);
    path_util::law_output_stays_inside(a.url, c.base, Seq::empty());
    path_util::law_output_stays_inside(b.url, c.base, Seq::empty());
    law_keys_identify_paths(a.path, b.path);
}

/// Every file of an orderly plan has a path made of names only, so that it lies
/// inside whatever directory the plan is written to.
pub proof fn law_planned_paths_are_safe(
    c: CollectorModel,
    i: int,
    root: Seq<char>,
    style: local_path::PathStyle,
)
    requires
        is_orderly(c),
        0 <= i < c.items.len(),
    ensures
        local_path::is_nested(c.items[i].path),
        local_path::parts(local_path::pushed(root, c.items[i].path)) == local_path::parts(root)
            + local_path::parts(c.items[i].path),
        path_util::within(root, c.items[i].path, style) == Ok::<Seq<char>, ErrorModel>(
            local_path::pushed(root, c.items[i].path),
        ),
{
    path_util::law_output_stays_inside(c.items[i].url, c.base, root);
    path_util::law_output_is_accepted(c.items[i].url, c.base, root, style);
}

/// What recording a URL comes to. One that was met before changes nothing. One that is new
/// is met from then on, and is refused exactly where the plan is full, where its path is
/// refused, or where another URL has its path; otherwise it becomes the last file of the
/// plan, under the kind it was recorded as.
pub proof fn law_urls_are_recorded_or_refused(c: CollectorModel, url: UrlParts, kind: ItemKind)
    ensures
        ({
            let (after, result) = added(c, url, kind);
            let place = path_util::output_path(url, c.base);
            let taken = place matches Ok(path) && c.owners.contains_key(path_key(path))
                && c.owners[path_key(path)] != url.text;
            let full = c.items.len() >= 5_000_000;
            &&& c.seen.contains(url.text) ==> after == c && result is Ok
            &&& !c.seen.contains(url.text) ==> {
                &&& after.seen == c.seen.insert(url.text)
                &&& after.base == c.base
                &&& result is Err <==> full || place is Err || taken
                &&& full ==> result == Err::<(), ErrorModel>(
                    ErrorModel::TooManyItems { limit: 5_000_000 },
                )
                &&& !full ==> (place matches Err(error) ==> result == Err::<(), ErrorModel>(error))
                &&& result is Err ==> after.items == c.items && after.owners == c.owners
                &&& result is Ok ==> {
                    let item = after.items[after.items.len() - 1];
                    &&& after.items.len() == c.items.len() + 1
                    &&& after.items.take(c.items.len() as int) == c.items
                    &&& item.url == url
                    &&& item.kind == kind
                    &&& place == Ok::<Seq<char>, ErrorModel>(item.path)
                }
            }
        }),
{
    let (after, result) = added(c, url, kind);
    if result is Ok && !c.seen.contains(url.text) {
        assert(after.items.take(c.items.len() as int) =~= c.items);
    }
}

/// Two different URLs never share a file: once one is recorded, another whose local path has
/// the same components is refused, in the name of both.
pub proof fn law_collisions_are_refused(
    c: CollectorModel,
    first: UrlParts,
    kind: ItemKind,
    second: UrlParts,
    other: ItemKind,
)
    requires
        !c.seen.contains(first.text),
        !c.seen.contains(second.text),
        first.text != second.text,
        added(c, first, kind).1 is Ok,
        c.items.len() + 1 < MAX_ITEMS,
        path_util::output_path(second, c.base) is Ok,
        local_path::parts(path_util::output_path(second, c.base)->Ok_0) == local_path::parts(
            path_util::output_path(first, c.base)->Ok_0,
        ),
    ensures
        added(added(c, first, kind).0, second, other).1 == Err::<(), ErrorModel>(
            ErrorModel::PathCollision {
                path: path_util::output_path(second, c.base)->Ok_0,
                first: first.text,
                second: second.text,
            },
        ),
{
    path_util::law_output_stays_inside(first, c.base, Seq::empty());
    path_util::law_output_stays_inside(second, c.base, Seq::empty());
    law_keys_identify_paths(
        path_util::output_path(first, c.base)->Ok_0,
        path_util::output_path(second, c.base)->Ok_0,
    );
}

/// Recording a URL twice is recording it once, whatever it is taken for the second time.
pub proof fn law_recording_twice_changes_nothing(
    c: CollectorModel,
    url: UrlParts,
    kind: ItemKind,
    other: ItemKind,
)
    ensures
        ({
            let once = added(c, url, kind).0;
            added(once, url, other) == (once, Ok::<(), ErrorModel>(()))
        }),
{
}

} // verus!
