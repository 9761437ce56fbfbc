//! Sorting declarations into their tiers.

use vstd::prelude::*;
use crate::category::{find_category, Category};
use crate::import::{all_categorized, import_views, Import, ImportView};

verus! {

/// The declarations of one tier, in the order in which `uses` holds them.
pub open spec fn group(uses: Seq<ImportView>, category: Category) -> Seq<ImportView> {
    uses.filter(|import: ImportView| import.category() == Some(category))
}

/// Splits the declarations into the three tiers: those of `Std`, those of
/// `Other`, those of `SuperOrCrate`. Within a tier the declarations keep the
/// order in which they were given.
pub fn make_groups<'a>(uses: &[&'a Import]) -> (groups: (
    Vec<&'a Import>,
    Vec<&'a Import>,
    Vec<&'a Import>,
))
    requires
        all_categorized(import_views(uses@)),
    ensures
        import_views(groups.0@) == group(import_views(uses@), Category::Std),
        import_views(groups.1@) == group(import_views(uses@), Category::Other),
        import_views(groups.2@) == group(import_views(uses@), Category::SuperOrCrate),
{
    let ghost views = import_views(uses@);
    let ghost is_std = |import: ImportView| import.category() == Some(Category::Std);
    let ghost is_other = |import: ImportView| import.category() == Some(Category::Other);
    let ghost is_crate = |import: ImportView| import.category() == Some(Category::SuperOrCrate);
    let mut std_vec: Vec<&'a Import> = Vec::new();
    let mut other_vec: Vec<&'a Import> = Vec::new();
    let mut crate_vec: Vec<&'a Import> = Vec::new();
    let n = uses.len();
    let mut i: usize = 0;
    proof {
        reveal(Seq::filter);
        assert(import_views(std_vec@) =~= views.take(0).filter(is_std));
        assert(import_views(other_vec@) =~= views.take(0).filter(is_other));
        assert(import_views(crate_vec@) =~= views.take(0).filter(is_crate));
    }
    while i < n
        invariant
            n == uses@.len(),
            views == import_views(uses@),
            all_categorized(views),
            is_std == |import: ImportView| import.category() == Some(Category::Std),
            is_other == |import: ImportView| import.category() == Some(Category::Other),
            is_crate == |import: ImportView| import.category() == Some(Category::SuperOrCrate),
            i <= n,
            import_views(std_vec@) == views.take(i as int).filter(is_std),
            import_views(other_vec@) == views.take(i as int).filter(is_other),
            import_views(crate_vec@) == views.take(i as int).filter(is_crate),
        decreases n - i,
    {
        let import = uses[i];
        let category = find_category(&import.tree);
        proof {
            let seen = views.take(i as int);
            assert(views[i as int] == import@);
            assert(views.take(i + 1) =~= seen.push(import@));
            seen.lemma_filter_push(import@, is_std);
            seen.lemma_filter_push(import@, is_other);
            seen.lemma_filter_push(import@, is_crate);
        }
        let ghost old_std = std_vec@;
        let ghost old_other = other_vec@;
        let ghost old_crate = crate_vec@;
        match category.unwrap() {
            Category::Std => std_vec.push(import),
            Category::Other => other_vec.push(import),
            Category::SuperOrCrate => crate_vec.push(import),
        }
        proof {
            assert(import_views(old_std.push(import)) =~= import_views(old_std).push(import@));
            assert(import_views(old_other.push(import)) =~= import_views(old_other).push(
                import@,
            ));
            assert(import_views(old_crate.push(import)) =~= import_views(old_crate).push(
                import@,
            ));
        }
        i += 1;
    }
    proof {
        assert(views.take(n as int) =~= views);
    }
    (std_vec, other_vec, crate_vec)
}

/// The places of `uses` from which a tier's block is made: the block holds
/// the declarations at these places, the places ascend, and every place
/// with a declaration of the tier is among them. So a block holds exactly
/// the declarations of its tier, in the order in which `uses` holds them.
pub proof fn lemma_group_places(uses: Seq<ImportView>, category: Category) -> (places: Seq<int>)
    ensures
        places.len() == group(uses, category).len(),
        forall|k: int|
            0 <= k < places.len() ==> 0 <= #[trigger] places[k] < uses.len() && uses[places[k]]
                == group(uses, category)[k],
        forall|a: int, b: int|
            0 <= a < b < places.len() ==> #[trigger] places[a] < #[trigger] places[b],
        forall|i: int|
            0 <= i < uses.len() && (#[trigger] uses[i]).category() == Some(category)
                ==> places.contains(i),
    decreases uses.len(),
{
    let of_tier = |import: ImportView| import.category() == Some(category);
    if uses.len() == 0 {
        reveal(Seq::filter);
        Seq::empty()
    } else {
        let front = uses.drop_last();
        let last = uses.last();
        let places = lemma_group_places(front, category);
        assert(front.push(last) =~= uses);
        front.lemma_filter_push(last, of_tier);
        if of_tier(last) {
            let more = places.push(uses.len() - 1);
            assert forall|i: int|
                0 <= i < uses.len() && (#[trigger] uses[i]).category() == Some(
                    category,
                ) implies more.contains(i) by {
                if i < uses.len() - 1 {
                    assert(front[i] == uses[i]);
                    let k = choose|k: int| 0 <= k < places.len() && places[k] == i;
                    assert(more[k] == i);
                } else {
                    assert(more[more.len() - 1] == i);
                }
            }
            more
        } else {
            assert forall|i: int|
                0 <= i < uses.len() && (#[trigger] uses[i]).category() == Some(
                    category,
                ) implies places.contains(i) by {
                assert(front[i] == uses[i]);
            }
            places
        }
    }
}

/// Where every declaration has a tier, the three blocks together hold as
/// many declarations as the list.
pub proof fn lemma_groups_cover(uses: Seq<ImportView>)
    requires
        all_categorized(uses),
    ensures
        group(uses, Category::Std).len() + group(uses, Category::Other).len() + group(
            uses,
            Category::SuperOrCrate,
        ).len() == uses.len(),
    decreases uses.len(),
{
    if uses.len() == 0 {
        reveal(Seq::filter);
    } else {
        let front = uses.drop_last();
        let last = uses.last();
        assert(front.push(last) =~= uses);
        assert forall|i: int| 0 <= i < front.len() implies (#[trigger] front[i]).category()
            is Some by {
            assert(uses[i].category() is Some);
        }
        lemma_groups_cover(front);
        front.lemma_filter_push(
            last,
            |import: ImportView| import.category() == Some(Category::Std),
        );
        front.lemma_filter_push(
            last,
            |import: ImportView| import.category() == Some(Category::Other),
        );
        front.lemma_filter_push(
            last,
            |import: ImportView| import.category() == Some(Category::SuperOrCrate),
        );
        assert(last.category() is Some);
    }
}

} // verus!
