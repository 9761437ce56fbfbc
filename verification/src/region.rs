//! The `use` declarations of a module body, in source order.

use vstd::prelude::*;
use vstd::set_lib::{lemma_int_range, lemma_subset_equality, set_int_range};
use crate::import::{import_views, item_views, Import, ImportView, Item, ItemView};

verus! {

/// The declarations among the items, in the order of the items.
pub open spec fn imports_of(items: Seq<ItemView>) -> Seq<ImportView> {
    items.filter(|item: ItemView| item is Use).map_values(|item: ItemView| item->Use_0)
}

/// What one more item adds to the declarations among the items.
pub proof fn lemma_imports_of_push(items: Seq<ItemView>, item: ItemView)
    ensures
        imports_of(items.push(item)) == match item {
            ItemView::Use(import) => imports_of(items).push(import),
            ItemView::Other => imports_of(items),
        },
{
    let is_use = |item: ItemView| item is Use;
    let as_import = |item: ItemView| item->Use_0;
    let kept = items.filter(is_use);
    items.lemma_filter_push(item, is_use);
    if item is Use {
        assert(kept.push(item).map_values(as_import) =~= kept.map_values(as_import).push(
            item->Use_0,
        ));
    }
}

/// There are no declarations among no items.
pub proof fn lemma_imports_of_empty()
    ensures
        imports_of(Seq::empty()) == Seq::<ImportView>::empty(),
{
    reveal(Seq::filter);
    assert(imports_of(Seq::empty()) =~= Seq::<ImportView>::empty());
}

/// Whether the declaration at place `i` of `uses` belongs before the one at
/// place `j` in source order: it starts earlier, or neither starts earlier
/// and it is listed earlier.
pub open spec fn comes_before(uses: Seq<ImportView>, i: int, j: int) -> bool {
    uses[i].span.starts_before(uses[j].span) || (!uses[j].span.starts_before(uses[i].span) && i
        < j)
}

/// Whether `order` lists the places of `uses` in source order: as many
/// places as there are declarations, each belonging before those after it.
pub open spec fn is_source_order(order: Seq<int>, uses: Seq<ImportView>) -> bool {
    &&& order.len() == uses.len()
    &&& forall|k: int| 0 <= k < order.len() ==> 0 <= #[trigger] order[k] < uses.len()
    &&& forall|a: int, b: int|
        0 <= a < b < order.len() ==> comes_before(uses, #[trigger] order[a], #[trigger] order[b])
}

/// The declarations of `uses`, taken in the order of the places in `order`.
pub open spec fn arranged(uses: Seq<ImportView>, order: Seq<int>) -> Seq<ImportView> {
    Seq::new(order.len(), |k: int| uses[order[k]])
}

/// Whether `sorted` holds the declarations of `uses` in source order.
pub open spec fn is_sorted_by_position(sorted: Seq<ImportView>, uses: Seq<ImportView>) -> bool {
    exists|order: Seq<int>| is_source_order(order, uses) && sorted == arranged(uses, order)
}

/// The declarations of `uses` in source order: by the start of their spans,
/// and in the order given where two start at the same place.
pub open spec fn sorted_by_position(uses: Seq<ImportView>) -> Seq<ImportView> {
    choose|sorted: Seq<ImportView>| is_sorted_by_position(sorted, uses)
}

/// A source order names every place of the list.
pub proof fn lemma_source_order_names_every_place(order: Seq<int>, uses: Seq<ImportView>, place: int)
    requires
        is_source_order(order, uses),
        0 <= place < uses.len(),
    ensures
        exists|k: int| 0 <= k < order.len() && order[k] == place,
{
    let n = uses.len() as int;
    assert(order.no_duplicates()) by {
        assert forall|a: int, b: int| 0 <= a < order.len() && 0 <= b < order.len() && a
            != b implies order[a] != order[b] by {
            if a < b {
                assert(comes_before(uses, order[a], order[b]));
            } else {
                assert(comes_before(uses, order[b], order[a]));
            }
        }
    }
    order.unique_seq_to_set();
    lemma_int_range(0, n);
    assert(order.to_set().subset_of(set_int_range(0, n))) by {
        assert forall|x: int| order.to_set().contains(x) implies set_int_range(0, n).contains(
            x,
        ) by {
            let k = choose|k: int| 0 <= k < order.len() && order[k] == x;
            assert(0 <= order[k] < n);
        }
    }
    lemma_subset_equality(order.to_set(), set_int_range(0, n));
    assert(set_int_range(0, n).contains(place));
    assert(order.to_set().contains(place));
    assert(order.contains(place));
}

/// Two source orders of one list agree on their first `upto` places.
proof fn lemma_source_orders_agree(
    first: Seq<int>,
    second: Seq<int>,
    uses: Seq<ImportView>,
    upto: int,
)
    requires
        is_source_order(first, uses),
        is_source_order(second, uses),
        0 <= upto <= uses.len(),
    ensures
        forall|k: int| 0 <= k < upto ==> first[k] == second[k],
    decreases upto,
{
    if upto > 0 {
        let k = upto - 1;
        lemma_source_orders_agree(first, second, uses, k);
        let x = first[k];
        let y = second[k];
        if x != y {
            lemma_source_order_names_every_place(second, uses, x);
            let m = choose|m: int| 0 <= m < second.len() && second[m] == x;
            lemma_source_order_names_every_place(first, uses, y);
            let l = choose|l: int| 0 <= l < first.len() && first[l] == y;
            if m < k {
                assert(first[m] == x);
                assert(comes_before(uses, first[m], first[k]));
            } else if l < k {
                assert(second[l] == y);
                assert(comes_before(uses, second[l], second[k]));
            } else {
                assert(comes_before(uses, second[k], second[m]));
                assert(comes_before(uses, first[k], first[l]));
            }
            assert(false);
        }
    }
}

/// A list has only one source order.
pub proof fn lemma_source_order_unique(first: Seq<int>, second: Seq<int>, uses: Seq<ImportView>)
    requires
        is_source_order(first, uses),
        is_source_order(second, uses),
    ensures
        first == second,
{
    lemma_source_orders_agree(first, second, uses, uses.len() as int);
    assert(first =~= second);
}

/// Putting one more declaration into a source order. The new declaration
/// goes to `place` where it starts before every declaration from `place` on
/// and does not start before the one just ahead of `place`.
proof fn lemma_insert_in_source_order(
    order: Seq<int>,
    uses: Seq<ImportView>,
    import: ImportView,
    place: int,
)
    requires
        is_source_order(order, uses),
        0 <= place <= order.len(),
        forall|k: int|
            place <= k < order.len() ==> import.span.starts_before(
                uses[#[trigger] order[k]].span,
            ),
        place > 0 ==> !import.span.starts_before(uses[order[place - 1]].span),
    ensures
        is_source_order(order.insert(place, uses.len() as int), uses.push(import)),
        arranged(uses.push(import), order.insert(place, uses.len() as int)) == arranged(
            uses,
            order,
        ).insert(place, import),
{
    let n = uses.len() as int;
    let more = uses.push(import);
    let longer = order.insert(place, n);
    assert forall|a: int, b: int| 0 <= a < b < longer.len() implies comes_before(
        more,
        #[trigger] longer[a],
        #[trigger] longer[b],
    ) by {
        if b < place {
            assert(comes_before(uses, order[a], order[b]));
        } else if b == place {
            if a < place - 1 {
                assert(comes_before(uses, order[a], order[place - 1]));
            }
        } else if a < place {
            assert(comes_before(uses, order[a], order[b - 1]));
        } else if a == place {
            assert(import.span.starts_before(uses[order[b - 1]].span));
        } else {
            assert(comes_before(uses, order[a - 1], order[b - 1]));
        }
    }
    assert(is_source_order(longer, more));
    assert(arranged(more, longer) =~= arranged(uses, order).insert(place, import));
}

/// Finds the place for one more declaration in a source order, looking at
/// the places below `below`, from which on the declaration starts before
/// every one.
proof fn lemma_find_place(
    order: Seq<int>,
    uses: Seq<ImportView>,
    import: ImportView,
    below: int,
) -> (place: int)
    requires
        is_source_order(order, uses),
        0 <= below <= order.len(),
        forall|k: int|
            below <= k < order.len() ==> import.span.starts_before(
                uses[#[trigger] order[k]].span,
            ),
    ensures
        0 <= place <= below,
        forall|k: int|
            place <= k < order.len() ==> import.span.starts_before(
                uses[#[trigger] order[k]].span,
            ),
        place > 0 ==> !import.span.starts_before(uses[order[place - 1]].span),
    decreases below,
{
    if below > 0 && import.span.starts_before(uses[order[below - 1]].span) {
        lemma_find_place(order, uses, import, below - 1)
    } else {
        below
    }
}

/// Every list has a source order.
pub proof fn lemma_source_order_exists(uses: Seq<ImportView>) -> (order: Seq<int>)
    ensures
        is_source_order(order, uses),
    decreases uses.len(),
{
    if uses.len() == 0 {
        Seq::empty()
    } else {
        let front = uses.drop_last();
        let order = lemma_source_order_exists(front);
        let place = lemma_find_place(order, front, uses.last(), order.len() as int);
        lemma_insert_in_source_order(order, front, uses.last(), place);
        assert(front.push(uses.last()) =~= uses);
        order.insert(place, front.len() as int)
    }
}

/// `sorted_by_position` puts a list in source order, and nothing else does.
pub proof fn lemma_sorted_by_position(uses: Seq<ImportView>, sorted: Seq<ImportView>)
    ensures
        is_sorted_by_position(sorted_by_position(uses), uses),
        is_sorted_by_position(sorted, uses) ==> sorted == sorted_by_position(uses),
{
    let order = lemma_source_order_exists(uses);
    assert(is_sorted_by_position(arranged(uses, order), uses));
    if is_sorted_by_position(sorted, uses) {
        let first = choose|first: Seq<int>|
            is_source_order(first, uses) && sorted == arranged(uses, first);
        let second = choose|second: Seq<int>|
            is_source_order(second, uses) && sorted_by_position(uses) == arranged(uses, second);
        lemma_source_order_unique(first, second, uses);
    }
}

/// A list in source order is as long as the list it was made from.
pub proof fn lemma_sorted_len(uses: Seq<ImportView>)
    ensures
        sorted_by_position(uses).len() == uses.len(),
{
    lemma_sorted_by_position(uses, uses);
}

/// Putting a list in source order keeps every declaration of it.
pub proof fn lemma_sorted_keeps(uses: Seq<ImportView>, i: int)
    requires
        0 <= i < uses.len(),
    ensures
        sorted_by_position(uses).contains(uses[i]),
{
    let sorted = sorted_by_position(uses);
    lemma_sorted_by_position(uses, sorted);
    let order = choose|order: Seq<int>|
        is_source_order(order, uses) && sorted == arranged(uses, order);
    lemma_source_order_names_every_place(order, uses, i);
    let k = choose|k: int| 0 <= k < order.len() && order[k] == i;
    assert(sorted[k] == uses[i]);
}

/// Puts the declarations in source order: by the start of their spans, and
/// in the order given where two start at the same place.
pub fn sort_by_position<'a>(uses: &[&'a Import]) -> (sorted: Vec<&'a Import>)
    ensures
        import_views(sorted@) == sorted_by_position(import_views(uses@)),
{
    let ghost views = import_views(uses@);
    let ghost mut order: Seq<int> = Seq::empty();
    let mut sorted: Vec<&'a Import> = Vec::new();
    let n = uses.len();
    let mut i: usize = 0;
    proof {
        assert(import_views(sorted@) =~= arranged(views.take(0), order));
    }
    while i < n
        invariant
            n == uses@.len(),
            views == import_views(uses@),
            i <= n,
            is_source_order(order, views.take(i as int)),
            import_views(sorted@) == arranged(views.take(i as int), order),
        decreases n - i,
    {
        let import = uses[i];
        let ghost seen = views.take(i as int);
        let mut place = sorted.len();
        assert(sorted@.len() == import_views(sorted@).len());
        while place > 0 && import.span.starts_before(&sorted[place - 1].span)
            invariant
                place <= sorted@.len() == order.len(),
                import_views(sorted@) == arranged(seen, order),
                forall|k: int|
                    place <= k < order.len() ==> import@.span.starts_before(
                        seen[#[trigger] order[k]].span,
                    ),
            decreases place,
        {
            proof {
                assert(import_views(sorted@)[place - 1] == seen[order[place - 1]]);
            }
            place -= 1;
        }
        proof {
            if place > 0 {
                assert(import_views(sorted@)[place - 1] == seen[order[place - 1]]);
            }
            lemma_insert_in_source_order(order, seen, import@, place as int);
            assert(views[i as int] == import@);
            assert(views.take(i + 1) =~= seen.push(import@));
            assert(import_views(sorted@.insert(place as int, import)) =~= import_views(
                sorted@,
            ).insert(place as int, import@));
            order = order.insert(place as int, i as int);
        }
        sorted.insert(place, import);
        i += 1;
    }
    proof {
        assert(views.take(n as int) =~= views);
        assert(is_sorted_by_position(import_views(sorted@), views));
        lemma_sorted_by_position(views, import_views(sorted@));
    }
    sorted
}

/// Gathers the `use` declarations of a module body and puts them in source
/// order.
pub fn collect_use_trees<'a>(items: &'a [Item]) -> (uses: Vec<&'a Import>)
    ensures
        import_views(uses@) == sorted_by_position(imports_of(item_views(items@))),
{
    let ghost views = item_views(items@);
    let mut found: Vec<&'a Import> = Vec::new();
    let n = items.len();
    let mut i: usize = 0;
    proof {
        lemma_imports_of_empty();
        assert(views.take(0) =~= Seq::empty());
        assert(import_views(found@) =~= Seq::empty());
    }
    while i < n
        invariant
            n == items@.len(),
            views == item_views(items@),
            i <= n,
            import_views(found@) == imports_of(views.take(i as int)),
        decreases n - i,
    {
        proof {
            assert(views[i as int] == items@[i as int]@);
            assert(views.take(i + 1) =~= views.take(i as int).push(views[i as int]));
            lemma_imports_of_push(views.take(i as int), views[i as int]);
        }
        let ghost before = found@;
        match &items[i] {
            Item::Use(import) => {
                found.push(import);
                proof {
                    assert(import_views(before.push(import)) =~= import_views(before).push(
                        import@,
                    ));
                }
            },
            Item::Other => {},
        }
        i += 1;
    }
    proof {
        assert(views.take(n as int) =~= views);
    }
    sort_by_position(found.as_slice())
}

} // verus!
