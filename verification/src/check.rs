//! Whether the imports of a module stand in the expected layout.

use vstd::prelude::*;
use crate::category::{category_order, find_category};
use crate::import::{all_categorized, import_views, Import, ImportView};
use crate::span::is_adjacent;

verus! {

/// Whether two declarations that follow one another break the layout.
///
/// Two declarations of one tier must be adjacent. Two of different tiers
/// must come in the order of their tiers and must not be adjacent. A pair
/// with a declaration that has no tier breaks nothing.
pub open spec fn pair_violates(prev: ImportView, next: ImportView) -> bool {
    match (prev.category(), next.category()) {
        (Some(c1), Some(c2)) => if c1 == c2 {
            !prev.lines.adjacent_to(next.lines)
        } else {
            c1.rank() > c2.rank() || prev.lines.adjacent_to(next.lines)
        },
        _ => false,
    }
}

/// Whether the declarations at `i` and `i + 1` break the layout.
pub open spec fn violates_at(uses: Seq<ImportView>, i: int) -> bool {
    0 <= i < uses.len() - 1 && pair_violates(uses[i], uses[i + 1])
}

/// Whether the declarations, taken in the order given, call for a rewrite:
/// every one of them has a tier, and some neighbouring pair breaks the
/// layout.
pub open spec fn needs_rewrite(uses: Seq<ImportView>) -> bool {
    all_categorized(uses) && exists|i: int| violates_at(uses, i)
}

/// Decides whether the declarations, given in source order, call for a
/// rewrite. A declaration without a tier anywhere among them ends the scan
/// with `false`.
pub fn check_use_trees(uses: &[&Import]) -> (rewrite: bool)
    ensures
        rewrite == needs_rewrite(import_views(uses@)),
{
    let ghost views = import_views(uses@);
    let n = uses.len();
    if n == 0 {
        return false;
    }
    let mut has_error = false;
    let mut i: usize = 0;
    while i + 1 < n
        invariant
            n == uses@.len(),
            views == import_views(uses@),
            i < n,
            i > 0 ==> forall|j: int| 0 <= j <= i ==> (#[trigger] views[j]).category() is Some,
            has_error <==> exists|j: int| j < i && violates_at(views, j),
        decreases n - i,
    {
        let prev = uses[i];
        let next = uses[i + 1];
        let cat1 = find_category(&prev.tree);
        let cat2 = find_category(&next.tree);
        assert(views[i as int] == prev@ && views[i + 1] == next@);
        if cat1.is_none() || cat2.is_none() {
            return false;
        }
        let cat1 = cat1.unwrap();
        let cat2 = cat2.unwrap();
        if cat1 == cat2 {
            if !is_adjacent(&prev.lines, &next.lines) {
                has_error = true;
            }
        } else {
            if category_order(cat1) > category_order(cat2) {
                has_error = true;
            } else if is_adjacent(&prev.lines, &next.lines) {
                has_error = true;
            }
        }
        proof {
            // A pair below `i + 1` is a pair below `i` or the pair at `i`.
            assert(violates_at(views, i as int) == pair_violates(prev@, next@));
            assert forall|j: int| j < i + 1 && violates_at(views, j) implies j < i
                || violates_at(views, i as int) by {}
        }
        i += 1;
    }
    proof {
        if has_error {
            let j = choose|j: int| j < i && violates_at(views, j);
            assert(violates_at(views, j));
        }
    }
    has_error
}

} // verus!
