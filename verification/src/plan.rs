//! The order of a finished plan: by local path, so that the same tileset always
//! produces the same plan.

use vstd::prelude::*;

use crate::collector;
use crate::collector::{DownloadItem, ItemModel};
use crate::local_path;
use crate::local_path::Component;
use crate::order;

verus! {

/// How two files are ordered, by their local paths.
pub open spec fn item_order(a: ItemModel, b: ItemModel) -> int {
    order::path_order(local_path::parts(a.path), local_path::parts(b.path))
}

/// The files are in the order of their local paths.
pub open spec fn is_sorted(items: Seq<ItemModel>) -> bool {
    forall|i: int, j: int|
        0 <= i < j < items.len() ==> item_order(#[trigger] items[i], #[trigger] items[j]) <= 0
}

/// A file together with the components of its path.
struct Keyed {
    components: Vec<Component>,
    item: DownloadItem,
}

impl Keyed {
    spec fn fits(self) -> bool {
        local_path::components_view(self.components@) == local_path::parts(
            self.item.relative_path@,
        )
    }
}

spec fn keyed_items(list: Seq<Keyed>) -> Seq<ItemModel> {
    list.map_values(|k: Keyed| k.item@)
}

spec fn all_fit(list: Seq<Keyed>) -> bool {
    forall|i: int| 0 <= i < list.len() ==> (#[trigger] list[i]).fits()
}

/// Every file of `low` may stand before every file of `high`.
spec fn all_before(low: Seq<ItemModel>, high: Seq<ItemModel>) -> bool {
    forall|i: int, j: int|
        0 <= i < low.len() && 0 <= j < high.len() ==> item_order(
            #[trigger] low[i],
            #[trigger] high[j],
        ) <= 0
}

/// The files are in the reverse order of their local paths.
spec fn is_reversed(items: Seq<ItemModel>) -> bool {
    forall|i: int, j: int|
        0 <= i < j < items.len() ==> item_order(#[trigger] items[j], #[trigger] items[i]) <= 0
}

proof fn lemma_last_is_greatest(items: Seq<ItemModel>)
    requires
        is_sorted(items),
        items.len() > 0,
    ensures
        all_before(items, seq![items.last()]),
{
    let last = items.last();
    order::lemma_path_order(local_path::parts(last.path), local_path::parts(last.path));
    assert forall|i: int, j: int| 0 <= i < items.len() && 0 <= j < 1 implies item_order(
        #[trigger] items[i],
        #[trigger] seq![last][j],
    ) <= 0 by {
        if i < items.len() - 1 {
            assert(item_order(items[i], items[items.len() - 1]) <= 0);
        }
    }
}

proof fn lemma_one_removed(items: Seq<ItemModel>)
    requires
        items.len() > 0,
    ensures
        items.to_multiset() == items.drop_last().to_multiset().insert(items.last()),
{
    broadcast use vstd::seq_lib::group_to_multiset_ensures;

    assert(items =~= items.drop_last().push(items.last()));
}

/// Moves the greatest file of `from` behind the others that were moved.
fn move_last(
    from: &mut Vec<Keyed>,
    to: &mut Vec<Keyed>,
    other: Ghost<Seq<ItemModel>>,
)
    requires
        old(from)@.len() > 0,
        all_fit(old(from)@),
        all_fit(old(to)@),
        is_sorted(keyed_items(old(from)@)),
        is_reversed(keyed_items(old(to)@)),
        all_before(keyed_items(old(from)@), keyed_items(old(to)@)),
        all_before(other@, keyed_items(old(to)@)),
        all_before(other@, seq![keyed_items(old(from)@).last()]),
    ensures
        final(from)@ == old(from)@.drop_last(),
        all_fit(final(from)@),
        all_fit(final(to)@),
        is_sorted(keyed_items(final(from)@)),
        is_reversed(keyed_items(final(to)@)),
        all_before(keyed_items(final(from)@), keyed_items(final(to)@)),
        all_before(other@, keyed_items(final(to)@)),
        keyed_items(final(from)@).to_multiset().add(keyed_items(final(to)@).to_multiset())
            == keyed_items(old(from)@).to_multiset().add(keyed_items(old(to)@).to_multiset()),
{
    let ghost a = keyed_items(from@);
    let ghost b = keyed_items(to@);
    proof {
        lemma_last_is_greatest(a);
        lemma_one_removed(a);
    }
    if let Some(last) = from.pop() {
        let ghost moved = last.item@;
        let ghost before = to@;
        assert(last.fits());
        assert(moved == a.last());
        to.push(last);
        proof {
            let x = keyed_items(from@);
            let y = keyed_items(to@);
            assert(x =~= a.drop_last());
            assert(y =~= b.push(moved));
            assert(seq![moved][0] == moved);
            assert forall|i: int, j: int| 0 <= i < x.len() && 0 <= j < y.len() implies item_order(
                #[trigger] x[i],
                #[trigger] y[j],
            ) <= 0 by {
                assert(x[i] == a[i]);
                if j < b.len() {
                    assert(y[j] == b[j]);
                } else {
                    assert(item_order(a[i], seq![a.last()][0]) <= 0);
                }
            }
            assert forall|i: int, j: int| 0 <= i < other@.len() && 0 <= j < y.len() implies
                item_order(#[trigger] other@[i], #[trigger] y[j]) <= 0 by {
                if j < b.len() {
                    assert(y[j] == b[j]);
                } else {
                    assert(item_order(other@[i], seq![a.last()][0]) <= 0);
                }
            }
            assert forall|i: int, j: int| 0 <= i < j < y.len() implies item_order(
                #[trigger] y[j],
                #[trigger] y[i],
            ) <= 0 by {
                assert(y[i] == b[i]);
                if j < b.len() {
                    assert(y[j] == b[j]);
                } else {
                    assert(item_order(a[a.len() - 1], b[i]) <= 0);
                }
            }
            lemma_one_removed(y);
            assert(y.drop_last() =~= b);
            assert(x.to_multiset().add(y.to_multiset()) =~= a.to_multiset().add(b.to_multiset()));
        }
    }
}

/// Turns a reversed list round.
fn reversed(list: Vec<Keyed>) -> (out: Vec<Keyed>)
    requires
        all_fit(list@),
        is_reversed(keyed_items(list@)),
    ensures
        all_fit(out@),
        is_sorted(keyed_items(out@)),
        keyed_items(out@).to_multiset() == keyed_items(list@).to_multiset(),
        out@.len() == list@.len(),
{
    let mut rest = list;
    let ghost whole = keyed_items(rest@);
    let mut out: Vec<Keyed> = Vec::new();
    proof {
        broadcast use vstd::seq_lib::group_to_multiset_ensures;

        assert(keyed_items(out@) =~= Seq::<ItemModel>::empty());
        assert(whole.to_multiset().add(keyed_items(out@).to_multiset()) =~= whole.to_multiset());
    }
    while rest.len() > 0
        invariant
            all_fit(rest@),
            all_fit(out@),
            is_reversed(keyed_items(rest@)),
            is_sorted(keyed_items(out@)),
            all_before(keyed_items(out@), keyed_items(rest@)),
            keyed_items(rest@).to_multiset().add(keyed_items(out@).to_multiset())
                == whole.to_multiset(),
            rest@.len() + out@.len() == list@.len(),
        decreases rest.len(),
    {
        let ghost a = keyed_items(rest@);
        let ghost b = keyed_items(out@);
        if let Some(last) = rest.pop() {
            let ghost moved = last.item@;
            assert(last.fits());
            assert(moved == a.last());
            out.push(last);
            proof {
                let x = keyed_items(rest@);
                let y = keyed_items(out@);
                assert(x =~= a.drop_last());
                assert(y =~= b.push(moved));
                assert forall|i: int, j: int| 0 <= i < y.len() && 0 <= j < x.len() implies
                    item_order(#[trigger] y[i], #[trigger] x[j]) <= 0 by {
                    assert(x[j] == a[j]);
                    if i < b.len() {
                        assert(y[i] == b[i]);
                    } else {
                        assert(item_order(a[a.len() - 1], a[j]) <= 0);
                    }
                }
                assert forall|i: int, j: int| 0 <= i < j < y.len() implies item_order(
                    #[trigger] y[i],
                    #[trigger] y[j],
                ) <= 0 by {
                    assert(y[i] == b[i]);
                    if j < b.len() {
                        assert(y[j] == b[j]);
                    } else {
                        assert(item_order(b[i], a[a.len() - 1]) <= 0);
                    }
                }
                lemma_one_removed(a);
                lemma_one_removed(y);
                assert(y.drop_last() =~= b);
                assert(x.to_multiset().add(y.to_multiset()) =~= whole.to_multiset());
            }
        }
    }
    proof {
        broadcast use vstd::seq_lib::group_to_multiset_ensures;

        assert(keyed_items(rest@) =~= Seq::<ItemModel>::empty());
        assert(keyed_items(rest@).to_multiset().add(keyed_items(out@).to_multiset())
            =~= keyed_items(out@).to_multiset());
    }
    out
}

/// Merges two sorted lists.
fn merge(left: Vec<Keyed>, right: Vec<Keyed>) -> (out: Vec<Keyed>)
    requires
        all_fit(left@),
        all_fit(right@),
        is_sorted(keyed_items(left@)),
        is_sorted(keyed_items(right@)),
    ensures
        all_fit(out@),
        is_sorted(keyed_items(out@)),
        keyed_items(out@).to_multiset() == keyed_items(left@).to_multiset().add(
            keyed_items(right@).to_multiset(),
        ),
{
    let mut left = left;
    let mut right = right;
    let mut out: Vec<Keyed> = Vec::new();
    let ghost whole = keyed_items(left@).to_multiset().add(keyed_items(right@).to_multiset());
    proof {
        broadcast use vstd::seq_lib::group_to_multiset_ensures;

        assert(keyed_items(out@) =~= Seq::<ItemModel>::empty());
        assert(whole.add(keyed_items(out@).to_multiset()) =~= whole);
    }
    while left.len() > 0 || right.len() > 0
        invariant
            all_fit(left@),
            all_fit(right@),
            all_fit(out@),
            is_sorted(keyed_items(left@)),
            is_sorted(keyed_items(right@)),
            is_reversed(keyed_items(out@)),
            all_before(keyed_items(left@), keyed_items(out@)),
            all_before(keyed_items(right@), keyed_items(out@)),
            keyed_items(left@).to_multiset().add(keyed_items(right@).to_multiset()).add(
                keyed_items(out@).to_multiset(),
            ) == whole,
        decreases left.len() + right.len(),
    {
        let ghost a = keyed_items(left@);
        let ghost b = keyed_items(right@);
        let ghost c = keyed_items(out@);
        let take_right = if left.len() == 0 {
            true
        } else if right.len() == 0 {
            false
        } else {
            let x = &left[left.len() - 1];
            let y = &right[right.len() - 1];
            assert(left@[left@.len() - 1].fits() && right@[right@.len() - 1].fits());
            order::order_paths(&x.components, &y.components) <= 0
        };
        if take_right {
            proof {
                if a.len() > 0 {
                    lemma_all_before_one(a, b.last());
                } else {
                    assert(all_before(a, seq![b.last()]));
                }
            }
            move_last(&mut right, &mut out, Ghost(a));
            proof {
                assert(a.to_multiset().add(keyed_items(right@).to_multiset()).add(
                    keyed_items(out@).to_multiset(),
                ) =~= a.to_multiset().add(
                    keyed_items(right@).to_multiset().add(keyed_items(out@).to_multiset()),
                ));
                assert(a.to_multiset().add(b.to_multiset()).add(c.to_multiset())
                    =~= a.to_multiset().add(b.to_multiset().add(c.to_multiset())));
            }
        } else {
            proof {
                if b.len() > 0 {
                    order::lemma_path_order(
                        local_path::parts(a.last().path),
                        local_path::parts(b.last().path),
                    );
                    lemma_all_before_one(b, a.last());
                } else {
                    assert(all_before(b, seq![a.last()]));
                }
            }
            move_last(&mut left, &mut out, Ghost(b));
            proof {
                assert(keyed_items(left@).to_multiset().add(b.to_multiset()).add(
                    keyed_items(out@).to_multiset(),
                ) =~= b.to_multiset().add(
                    keyed_items(left@).to_multiset().add(keyed_items(out@).to_multiset()),
                ));
                assert(a.to_multiset().add(b.to_multiset()).add(c.to_multiset())
                    =~= b.to_multiset().add(a.to_multiset().add(c.to_multiset())));
            }
        }
    }
    proof {
        broadcast use vstd::seq_lib::group_to_multiset_ensures;

        assert(keyed_items(left@) =~= Seq::<ItemModel>::empty());
        assert(keyed_items(right@) =~= Seq::<ItemModel>::empty());
        assert(whole =~= keyed_items(out@).to_multiset());
    }
    reversed(out)
}

proof fn lemma_all_before_one(items: Seq<ItemModel>, one: ItemModel)
    requires
        is_sorted(items),
        items.len() > 0,
        item_order(items.last(), one) <= 0,
    ensures
        all_before(items, seq![one]),
{
    lemma_last_is_greatest(items);
    assert forall|i: int, j: int| 0 <= i < items.len() && 0 <= j < 1 implies item_order(
        #[trigger] items[i],
        #[trigger] seq![one][j],
    ) <= 0 by {
        assert(item_order(items[i], seq![items.last()][0]) <= 0);
        order::lemma_path_transitive(
            local_path::parts(items[i].path),
            local_path::parts(items.last().path),
            local_path::parts(one.path),
        );
    }
}

fn sort_keyed(list: Vec<Keyed>) -> (out: Vec<Keyed>)
    requires
        all_fit(list@),
    ensures
        all_fit(out@),
        is_sorted(keyed_items(out@)),
        keyed_items(out@).to_multiset() == keyed_items(list@).to_multiset(),
    decreases list@.len(),
{
    if list.len() <= 1 {
        return list;
    }
    let ghost whole = list@;
    let mut left = list;
    let middle = left.len() / 2;
    let right = left.split_off(middle);
    proof {
        assert(forall|i: int| 0 <= i < left@.len() ==> #[trigger] left@[i] == whole[i]);
        assert(forall|i: int|
            0 <= i < right@.len() ==> #[trigger] right@[i] == whole[middle + i]);
        assert(keyed_items(whole) =~= keyed_items(left@) + keyed_items(right@));
        vstd::seq_lib::lemma_multiset_commutative(keyed_items(left@), keyed_items(right@));
    }
    merge(sort_keyed(left), sort_keyed(right))
}

/// Puts files in the order of their local paths.
pub fn sort_items(items: Vec<DownloadItem>) -> (out: Vec<DownloadItem>)
    ensures
        is_sorted(collector::item_views(out@)),
        collector::item_views(out@).to_multiset() == collector::item_views(items@).to_multiset(),
{
    let ghost whole = collector::item_views(items@);
    let mut list: Vec<Keyed> = Vec::new();
    for item in iter: items
        invariant
            iter.seq() == items@,
            whole == collector::item_views(items@),
            all_fit(list@),
            keyed_items(list@) == whole.take(iter.index()),
    {
        let ghost before = keyed_items(list@);
        let ghost n = iter.index();
        let ghost added = item@;
        let components = item.relative_path.components();
        list.push(Keyed { components, item });
        assert(keyed_items(list@) =~= before.push(added));
        assert(whole.take(n + 1) =~= before.push(added));
    }
    assert(whole.take(whole.len() as int) =~= whole);
    let sorted = sort_keyed(list);
    let ghost ordered = keyed_items(sorted@);
    let mut out: Vec<DownloadItem> = Vec::new();
    for keyed in iter: sorted
        invariant
            iter.seq() == sorted@,
            ordered == keyed_items(sorted@),
            collector::item_views(out@) == ordered.take(iter.index()),
    {
        let ghost before = collector::item_views(out@);
        let ghost n = iter.index();
        let ghost added = keyed.item@;
        out.push(keyed.item);
        assert(collector::item_views(out@) =~= before.push(added));
        assert(ordered.take(n + 1) =~= before.push(added));
    }
    assert(ordered.take(ordered.len() as int) =~= ordered);
    out
}

/// No two files share a local path.
pub open spec fn has_distinct_paths(items: Seq<ItemModel>) -> bool {
    forall|i: int, j: int|
        0 <= i < j < items.len() ==> local_path::parts((#[trigger] items[i]).path)
            != local_path::parts((#[trigger] items[j]).path)
}

/// The plan is deterministic: the files alone fix their order, in whatever order they
/// were discovered.
pub proof fn law_plan_is_determined(a: Seq<ItemModel>, b: Seq<ItemModel>)
    requires
        is_sorted(a),
        is_sorted(b),
        has_distinct_paths(a),
        a.to_multiset() == b.to_multiset(),
    ensures
        a == b,
    decreases a.len(),
{
    broadcast use vstd::seq_lib::group_to_multiset_ensures;

    assert(a.len() == a.to_multiset().len());
    assert(b.len() == b.to_multiset().len());
    if a.len() > 0 {
        let (x, y) = (a.last(), b.last());
        assert(a.contains(x) && b.contains(y));
        assert(b.to_multiset().contains(x) && a.to_multiset().contains(y));
        assert(b.contains(x) && a.contains(y));
        let i = choose|i: int| 0 <= i < b.len() && b[i] == x;
        let j = choose|j: int| 0 <= j < a.len() && a[j] == y;
        order::lemma_path_order(local_path::parts(x.path), local_path::parts(x.path));
        order::lemma_path_order(local_path::parts(x.path), local_path::parts(y.path));
        if i < b.len() - 1 {
            assert(item_order(b[i], b[b.len() - 1]) <= 0);
        }
        if j < a.len() - 1 {
            assert(item_order(a[j], a[a.len() - 1]) <= 0);
        }
        assert(item_order(x, y) == 0);
        order::lemma_path_order_distinguishes(
            local_path::parts(x.path),
            local_path::parts(y.path),
        );
        if j < a.len() - 1 {
            assert(local_path::parts(a[j].path) != local_path::parts(a[a.len() - 1].path));
        }
        assert(x == y);
        lemma_one_removed(a);
        lemma_one_removed(b);
        let (front, other) = (a.drop_last(), b.drop_last());
        assert(front.to_multiset() =~= a.to_multiset().remove(x));
        assert(other.to_multiset() =~= b.to_multiset().remove(x));
        assert forall|p: int, q: int| 0 <= p < q < front.len() implies item_order(
            #[trigger] front[p],
            #[trigger] front[q],
        ) <= 0 by {
            assert(item_order(a[p], a[q]) <= 0);
        }
        assert forall|p: int, q: int| 0 <= p < q < other.len() implies item_order(
            #[trigger] other[p],
            #[trigger] other[q],
        ) <= 0 by {
            assert(item_order(b[p], b[q]) <= 0);
        }
        assert forall|p: int, q: int| 0 <= p < q < front.len() implies local_path::parts(
            (#[trigger] front[p]).path,
        ) != local_path::parts((#[trigger] front[q]).path) by {
            assert(local_path::parts(a[p].path) != local_path::parts(a[q].path));
        }
        law_plan_is_determined(front, other);
        assert(a =~= front.push(x));
        assert(b =~= other.push(y));
    } else {
        assert(a =~= b);
    }
}

proof fn lemma_neighbours_order_all(items: Seq<ItemModel>, i: int, j: int)
    requires
        forall|k: int, next: int|
            0 <= k && next == k + 1 && next < items.len() ==> order::path_order(
                local_path::parts((#[trigger] items[k]).path),
                local_path::parts((#[trigger] items[next]).path),
            ) <= 0,
        0 <= i < j < items.len(),
    ensures
        item_order(items[i], items[j]) <= 0,
    decreases j - i,
{
    if i + 1 < j {
        lemma_neighbours_order_all(items, i, j - 1);
        assert(item_order(items[j - 1], items[j]) <= 0);
        order::lemma_path_transitive(
            local_path::parts(items[i].path),
            local_path::parts(items[j - 1].path),
            local_path::parts(items[j].path),
        );
    }
}

/// A plan is sorted exactly where no file comes right before one with a smaller path.
pub proof fn law_sorted_neighbours_suffice(items: Seq<ItemModel>)
    ensures
        is_sorted(items) <==> forall|k: int, next: int|
            0 <= k && next == k + 1 && next < items.len() ==> order::path_order(
                local_path::parts((#[trigger] items[k]).path),
                local_path::parts((#[trigger] items[next]).path),
            ) <= 0,
{
    if is_sorted(items) {
        assert forall|k: int, next: int|
            0 <= k && next == k + 1 && next < items.len() implies order::path_order(
            local_path::parts((#[trigger] items[k]).path),
            local_path::parts((#[trigger] items[next]).path),
        ) <= 0 by {
            assert(item_order(items[k], items[next]) <= 0);
        }
    } else {
        let (i, j) = choose|i: int, j: int|
            0 <= i < j < items.len() && item_order(#[trigger] items[i], #[trigger] items[j]) > 0;
        if forall|k: int, next: int|
            0 <= k && next == k + 1 && next < items.len() ==> order::path_order(
                local_path::parts((#[trigger] items[k]).path),
                local_path::parts((#[trigger] items[next]).path),
            ) <= 0 {
            lemma_neighbours_order_all(items, i, j);
        }
    }
}

} // verus!
