//! What holds of the analysis and of the text it suggests.

use vstd::prelude::*;
use crate::check::{needs_rewrite, pair_violates, violates_at};
use crate::import::{all_categorized, ImportView, ItemView};
use crate::region::{imports_of, lemma_sorted_keeps, sorted_by_position};
use crate::span::LineRangeView;

verus! {

/// A list with a declaration that has no tier calls for no rewrite, however
/// the other declarations lie.
pub proof fn lemma_uncategorized_is_left_alone(uses: Seq<ImportView>, i: int)
    requires
        0 <= i < uses.len(),
        uses[i].tree.prefix.len() == 0,
    ensures
        !needs_rewrite(uses),
{
    assert(uses[i].category() is None);
}

/// A module with a `use` declaration whose prefix has no segment gets no
/// suggestion, whatever else it holds.
pub proof fn lemma_bail_out(items: Seq<ItemView>, i: int)
    requires
        0 <= i < items.len(),
        items[i] is Use,
        items[i]->Use_0.tree.prefix.len() == 0,
    ensures
        !needs_rewrite(sorted_by_position(imports_of(items))),
{
    let is_use = |item: ItemView| item is Use;
    let kept = items.filter(is_use);
    let uses = imports_of(items);
    items.lemma_filter_contains(is_use, i);
    let at = choose|at: int| 0 <= at < kept.len() && kept[at] == items[i];
    assert(uses[at] == items[i]->Use_0);
    lemma_sorted_keeps(uses, at);
    let sorted = sorted_by_position(uses);
    let k = choose|k: int| 0 <= k < sorted.len() && sorted[k] == uses[at];
    lemma_uncategorized_is_left_alone(sorted, k);
}

/// Two declarations of one tier, the second beginning on the line after the
/// first ends, break nothing.
pub proof fn lemma_consecutive_lines_are_accepted(prev: ImportView, next: ImportView)
    requires
        prev.category() is Some,
        prev.category() == next.category(),
        next.lines.first == prev.lines.last + 1,
    ensures
        !pair_violates(prev, next),
{
}

/// The list with every declaration after place `i` moved down by one line,
/// as it lies once an empty line has been put in after the declaration at
/// `i`.
pub open spec fn with_blank_line_after(uses: Seq<ImportView>, i: int) -> Seq<ImportView> {
    Seq::new(
        uses.len(),
        |k: int|
            if k > i {
                ImportView {
                    span: uses[k].span,
                    lines: LineRangeView {
                        first: uses[k].lines.first + 1,
                        last: uses[k].lines.last + 1,
                    },
                    tree: uses[k].tree,
                }
            } else {
                uses[k]
            },
    )
}

/// Where every declaration has a tier, an empty line put in between two
/// declarations of one tier that stood on consecutive lines calls for a
/// rewrite.
pub proof fn lemma_blank_line_is_reported(uses: Seq<ImportView>, i: int)
    requires
        all_categorized(uses),
        0 <= i < uses.len() - 1,
        uses[i].category() == uses[i + 1].category(),
        uses[i + 1].lines.first == uses[i].lines.last + 1,
    ensures
        needs_rewrite(with_blank_line_after(uses, i)),
{
    let spaced = with_blank_line_after(uses, i);
    assert forall|k: int| 0 <= k < spaced.len() implies (#[trigger] spaced[k]).category()
        is Some by {
        assert(uses[k].category() is Some);
    }
    assert(uses[i].category() is Some);
    assert(violates_at(spaced, i));
}

} // verus!
