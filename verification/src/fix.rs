//! The suggestion that puts the imports of a module into their blocks.

use vstd::prelude::*;
use vstd::string::StringExecFns;
use crate::category::Category;
use crate::check::{check_use_trees, needs_rewrite, violates_at};
use crate::groups::{group, make_groups};
use crate::import::{import_views, item_views, Import, ImportView, Item};
use crate::region::{
    collect_use_trees, imports_of, lemma_imports_of_empty, lemma_imports_of_push,
    lemma_sorted_len, sorted_by_position,
};
use crate::render::{
    block_to_code, joined, lemma_block_is_not_empty, lemma_joined_push, render_block,
};
use crate::span::{merge_span, Span, SpanView};

verus! {

/// How far a suggestion can be trusted.
#[derive(Copy, Clone, PartialEq, Eq, Debug, Structural)]
pub enum Applicability {
    /// The suggestion can be applied as it is, with nobody looking at it.
    MachineApplicable,
    /// The suggestion may not be what the author wants.
    MaybeIncorrect,
    /// The suggestion holds text that must be filled in by hand.
    HasPlaceholders,
    /// Nothing is known of the suggestion.
    Unspecified,
}

/// One suggested fix: the text to put in place of a span, and what to tell
/// the author about it.
#[derive(Debug, PartialEq, Eq)]
pub struct Suggestion {
    /// The span to replace.
    pub span: Span,
    /// What is wrong.
    pub message: String,
    /// The label under which the replacement is offered.
    pub help: String,
    /// The text to put in place of the span.
    pub replacement: String,
    /// How far the replacement can be trusted.
    pub applicability: Applicability,
}

/// The message of the suggestion.
pub open spec fn message_text() -> Seq<char> {
    "put a block of imports here"@
}

/// The label under which the replacement is offered.
pub open spec fn help_text() -> Seq<char> {
    "try"@
}

/// Whether `span` is the span over all the declarations: it lies in the file
/// of the first of them, starts at the lowest of their starts and ends at
/// the highest of their ends.
pub open spec fn is_block_span(span: SpanView, uses: Seq<ImportView>) -> bool {
    &&& uses.len() > 0
    &&& span.file == uses[0].span.file
    &&& exists|i: int| 0 <= i < uses.len() && uses[i].span.lo == span.lo
    &&& exists|i: int| 0 <= i < uses.len() && uses[i].span.hi == span.hi
    &&& forall|i: int| 0 <= i < uses.len() ==> span.lo <= uses[i].span.lo
    &&& forall|i: int| 0 <= i < uses.len() ==> uses[i].span.hi <= span.hi
}

/// The block of the declarations as a list of texts: the one text of the
/// block where there is a declaration, no text where there is none.
pub open spec fn block_if_any(uses: Seq<ImportView>) -> Seq<Seq<char>> {
    if uses.len() == 0 {
        Seq::empty()
    } else {
        seq![render_block(uses)]
    }
}

/// The replacement text: those of the blocks of `Std`, of `Other` and of
/// `SuperOrCrate` that hold a declaration, in that order, with one empty
/// line between each two of them and a line break at the end. A tier
/// without declarations leaves nothing in the text.
pub open spec fn render_groups(
    std_uses: Seq<ImportView>,
    other_uses: Seq<ImportView>,
    crate_uses: Seq<ImportView>,
) -> Seq<char> {
    joined(
        block_if_any(std_uses) + block_if_any(other_uses) + block_if_any(crate_uses),
        "\n\n"@,
    ) + "\n"@
}

/// The replacement text for the declarations of a module.
pub open spec fn render_fix(uses: Seq<ImportView>) -> Seq<char> {
    render_groups(
        group(uses, Category::Std),
        group(uses, Category::Other),
        group(uses, Category::SuperOrCrate),
    )
}

impl Clone for Suggestion {
    fn clone(&self) -> (copy: Suggestion)
        ensures
            copy.span == self.span,
            copy.message@ == self.message@,
            copy.help@ == self.help@,
            copy.replacement@ == self.replacement@,
            copy.applicability == self.applicability,
    {
        Suggestion {
            span: self.span,
            message: self.message.clone(),
            help: self.help.clone(),
            replacement: self.replacement.clone(),
            applicability: self.applicability,
        }
    }
}

impl Suggestion {
    /// Whether this is the suggestion that replaces `span` by the blocks
    /// given: with that text, the fixed message and label, and applicable by
    /// machine.
    pub open spec fn offers(
        self,
        span: SpanView,
        std_uses: Seq<ImportView>,
        other_uses: Seq<ImportView>,
        crate_uses: Seq<ImportView>,
    ) -> bool {
        &&& self.span@ == span
        &&& self.message@ == message_text()
        &&& self.help@ == help_text()
        &&& self.replacement@ == render_groups(std_uses, other_uses, crate_uses)
        &&& self.applicability == Applicability::MachineApplicable
    }
}

/// The span over all the `use` declarations of a module body; `None` where
/// the body has none.
pub fn find_use_block_span(items: &[Item]) -> (span: Option<Span>)
    ensures
        match span {
            None => imports_of(item_views(items@)).len() == 0,
            Some(span) => is_block_span(span@, imports_of(item_views(items@))),
        },
{
    let ghost views = item_views(items@);
    let mut result: Option<Span> = None;
    let n = items.len();
    let mut i: usize = 0;
    proof {
        lemma_imports_of_empty();
        assert(views.take(0) =~= Seq::empty());
    }
    while i < n
        invariant
            n == items@.len(),
            views == item_views(items@),
            i <= n,
            match result {
                None => imports_of(views.take(i as int)).len() == 0,
                Some(span) => is_block_span(span@, imports_of(views.take(i as int))),
            },
        decreases n - i,
    {
        let ghost seen = imports_of(views.take(i as int));
        proof {
            assert(views[i as int] == items@[i as int]@);
            assert(views.take(i + 1) =~= views.take(i as int).push(views[i as int]));
            lemma_imports_of_push(views.take(i as int), views[i as int]);
        }
        match &items[i] {
            Item::Use(import) => {
                let ghost more = seen.push(import@);
                result = Some(
                    match result {
                        None => import.span,
                        Some(span) => {
                            proof {
                                let at_lo = choose|k: int|
                                    0 <= k < seen.len() && seen[k].span.lo == span@.lo;
                                let at_hi = choose|k: int|
                                    0 <= k < seen.len() && seen[k].span.hi == span@.hi;
                                assert(more[at_lo] == seen[at_lo]);
                                assert(more[at_hi] == seen[at_hi]);
                                assert(more[0] == seen[0]);
                                assert(forall|k: int|
                                    0 <= k < seen.len() ==> more[k] == seen[k]);
                            }
                            merge_span(span, import.span)
                        },
                    },
                );
                proof {
                    assert(more[more.len() - 1] == import@);
                }
            },
            Item::Other => {},
        }
        i += 1;
    }
    proof {
        assert(views.take(n as int) =~= views);
    }
    result
}

/// Writes one more block behind the blocks that `text` holds: nothing where
/// the block has no declaration, else the block, after an empty line where
/// it is not the first.
fn append_block(text: &mut String, uses: &[&Import], Ghost(blocks): Ghost<Seq<Seq<char>>>)
    requires
        old(text)@ == joined(blocks, "\n\n"@),
        blocks.len() == 0 <==> old(text)@.len() == 0,
    ensures
        final(text)@ == joined(blocks + block_if_any(import_views(uses@)), "\n\n"@),
        (blocks + block_if_any(import_views(uses@))).len() == 0 <==> final(text)@.len() == 0,
{
    if uses.len() == 0 {
        assert(blocks + block_if_any(import_views(uses@)) =~= blocks);
    } else {
        let block = block_to_code(uses);
        if !text.as_str().is_empty() {
            text.append("\n\n");
        }
        text.append(block.as_str());
        proof {
            lemma_joined_push(blocks, block@, "\n\n"@);
            assert(blocks + block_if_any(import_views(uses@)) =~= blocks.push(block@));
            lemma_block_is_not_empty(import_views(uses@));
        }
    }
}

/// Builds the suggestion that replaces `span` by the blocks of the three
/// tiers. A tier without declarations adds nothing to the text.
pub fn suggest_use_blocks(
    span: Span,
    std_use: &[&Import],
    other_use: &[&Import],
    crate_use: &[&Import],
) -> (suggestion: Suggestion)
    ensures
        suggestion.offers(
            span@,
            import_views(std_use@),
            import_views(other_use@),
            import_views(crate_use@),
        ),
{
    let ghost std_block = block_if_any(import_views(std_use@));
    let ghost other_block = block_if_any(import_views(other_use@));
    let mut replacement = String::new();
    append_block(&mut replacement, std_use, Ghost(Seq::empty()));
    assert(Seq::<Seq<char>>::empty() + std_block =~= std_block);
    append_block(&mut replacement, other_use, Ghost(std_block));
    append_block(&mut replacement, crate_use, Ghost(std_block + other_block));
    replacement.append("\n");
    Suggestion {
        span,
        message: String::from_str("put a block of imports here"),
        help: String::from_str("try"),
        replacement,
        applicability: Applicability::MachineApplicable,
    }
}

/// Checks the `use` declarations of a module body against the layout and,
/// where they break it, suggests the text that puts them right.
///
/// The declarations are taken in source order. Where they call for a
/// rewrite, the suggestion replaces the span over all of them by the blocks
/// of their tiers; else there is no suggestion.
pub fn check_use_order(items: &[Item]) -> (suggestion: Option<Suggestion>)
    ensures
        suggestion is Some <==> needs_rewrite(
            sorted_by_position(imports_of(item_views(items@))),
        ),
        match suggestion {
            None => true,
            Some(suggestion) => {
                &&& is_block_span(suggestion.span@, imports_of(item_views(items@)))
                &&& suggestion.replacement@ == render_fix(
                    sorted_by_position(imports_of(item_views(items@))),
                )
                &&& suggestion.message@ == message_text()
                &&& suggestion.help@ == help_text()
                &&& suggestion.applicability == Applicability::MachineApplicable
            },
        },
{
    let use_trees = collect_use_trees(items);
    if !check_use_trees(use_trees.as_slice()) {
        return None;
    }
    let (std_vec, other_vec, crate_vec) = make_groups(use_trees.as_slice());
    let use_block_span = find_use_block_span(items);
    proof {
        let uses = imports_of(item_views(items@));
        let region = sorted_by_position(uses);
        lemma_sorted_len(uses);
        let at = choose|at: int| violates_at(region, at);
        assert(violates_at(region, at));
        assert(uses.len() >= 2);
    }
    match use_block_span {
        Some(span) => Some(
            suggest_use_blocks(
                span,
                std_vec.as_slice(),
                other_vec.as_slice(),
                crate_vec.as_slice(),
            ),
        ),
        None => None,
    }
}

} // verus!
