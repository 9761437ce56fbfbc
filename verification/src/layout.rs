//! How a module lies once the suggested text stands in it.

use vstd::prelude::*;
use crate::category::Category;
use crate::check::{needs_rewrite, violates_at};
use crate::fix::{block_if_any, render_fix};
use crate::groups::{group, lemma_group_places};
use crate::import::ImportView;
use crate::region::{arranged, is_source_order, lemma_sorted_by_position, sorted_by_position};
use crate::span::LineRangeView;
use crate::render::{
    joined, render_block, render_path, render_root, render_statement, render_statements,
    render_tree, render_trees,
};
use crate::tree::{UseTreeKindView, UseTreeView};

verus! {

/// The declarations in the order in which the suggested text states them:
/// the block of `Std`, then that of `Other`, then that of `SuperOrCrate`.
pub open spec fn regrouped(uses: Seq<ImportView>) -> Seq<ImportView> {
    group(uses, Category::Std) + group(uses, Category::Other) + group(
        uses,
        Category::SuperOrCrate,
    )
}

/// The number of lines from the first line of a block of `count` statements
/// to the first line of the block after it: the lines of the statements and
/// the empty line. A block without statements takes no line.
pub open spec fn block_height(count: int) -> int {
    if count <= 0 {
        0
    } else {
        count + 1
    }
}

/// The line on which statement `k` of the suggested text stands, once the
/// text begins on line `first_line`.
pub open spec fn statement_line(uses: Seq<ImportView>, first_line: int, k: int) -> int {
    let in_std = group(uses, Category::Std).len() as int;
    let in_other = group(uses, Category::Other).len() as int;
    if k < in_std {
        first_line + k
    } else if k < in_std + in_other {
        first_line + block_height(in_std) + (k - in_std)
    } else {
        first_line + block_height(in_std) + block_height(in_other) + (k - in_std - in_other)
    }
}

/// Whether `fixed` is what a module holds once the text suggested for `uses`
/// stands in it from line `first_line` on: the trees of the three blocks in
/// the order of the text, each on the one line of its statement, each
/// starting before the next.
pub open spec fn reads_back(fixed: Seq<ImportView>, uses: Seq<ImportView>, first_line: int) -> bool {
    &&& fixed.len() == regrouped(uses).len()
    &&& forall|k: int|
        0 <= k < fixed.len() ==> (#[trigger] fixed[k]).tree == regrouped(uses)[k].tree
    &&& forall|k: int|
        0 <= k < fixed.len() ==> (#[trigger] fixed[k]).lines == (LineRangeView {
            first: statement_line(uses, first_line, k),
            last: statement_line(uses, first_line, k),
        })
    &&& forall|a: int, b: int|
        0 <= a < b < fixed.len() ==> (#[trigger] fixed[a]).span.starts_before(
            (#[trigger] fixed[b]).span,
        )
}

/// A module in which the suggested text stands calls for no further
/// rewrite: its declarations are in source order as they are, and no pair
/// of them breaks the layout.
pub proof fn lemma_fix_is_accepted(fixed: Seq<ImportView>, uses: Seq<ImportView>, first_line: int)
    requires
        reads_back(fixed, uses, first_line),
    ensures
        sorted_by_position(fixed) == fixed,
        !needs_rewrite(fixed),
        !needs_rewrite(sorted_by_position(fixed)),
{
    let std_uses = group(uses, Category::Std);
    let other_uses = group(uses, Category::Other);
    let crate_uses = group(uses, Category::SuperOrCrate);
    let in_std = std_uses.len() as int;
    let in_other = other_uses.len() as int;
    let all = regrouped(uses);
    assert forall|k: int| 0 <= k < fixed.len() implies (#[trigger] fixed[k]).category() == Some(
        if k < in_std {
            Category::Std
        } else if k < in_std + in_other {
            Category::Other
        } else {
            Category::SuperOrCrate
        },
    ) by {
        assert(fixed[k].tree == all[k].tree);
        if k < in_std {
            uses.lemma_filter_pred(
                |import: ImportView| import.category() == Some(Category::Std),
                k,
            );
            assert(all[k] == std_uses[k]);
        } else if k < in_std + in_other {
            uses.lemma_filter_pred(
                |import: ImportView| import.category() == Some(Category::Other),
                k - in_std,
            );
            assert(all[k] == other_uses[k - in_std]);
        } else {
            uses.lemma_filter_pred(
                |import: ImportView| import.category() == Some(Category::SuperOrCrate),
                k - in_std - in_other,
            );
            assert(all[k] == crate_uses[k - in_std - in_other]);
        }
    }
    assert forall|k: int| !violates_at(fixed, k) by {
        if 0 <= k < fixed.len() - 1 {
            assert(fixed[k].category() is Some);
            assert(fixed[k + 1].category() is Some);
            assert(fixed[k].lines.last == statement_line(uses, first_line, k));
            assert(fixed[k + 1].lines.first == statement_line(uses, first_line, k + 1));
        }
    }
    let as_given = Seq::new(fixed.len(), |k: int| k);
    assert(is_source_order(as_given, fixed));
    assert(arranged(fixed, as_given) =~= fixed);
    lemma_sorted_by_position(fixed, fixed);
}

/// The number of line breaks in a text.
pub open spec fn line_breaks(text: Seq<char>) -> int
    decreases text.len(),
{
    if text.len() == 0 {
        0
    } else {
        line_breaks(text.drop_last()) + if text.last() == '\n' {
            1int
        } else {
            0int
        }
    }
}

/// Whether no name in the tree, be it a segment or an alias, holds a line
/// break.
pub open spec fn names_on_one_line(tree: UseTreeView) -> bool
    decreases tree,
{
    &&& forall|i: int| 0 <= i < tree.prefix.len() ==> line_breaks(#[trigger] tree.prefix[i]) == 0
    &&& match tree.kind {
        UseTreeKindView::Simple(None) => true,
        UseTreeKindView::Simple(Some(alias)) => line_breaks(alias) == 0,
        UseTreeKindView::Nested(children) => forall|i: int|
            0 <= i < children.len() ==> names_on_one_line(#[trigger] children[i]),
        UseTreeKindView::Glob => true,
    }
}

/// The line breaks of two texts set one after the other are those of both.
pub proof fn lemma_line_breaks_add(first: Seq<char>, second: Seq<char>)
    ensures
        line_breaks(first + second) == line_breaks(first) + line_breaks(second),
    decreases second.len(),
{
    if second.len() == 0 {
        assert(first + second =~= first);
    } else {
        assert((first + second).drop_last() =~= first + second.drop_last());
        lemma_line_breaks_add(first, second.drop_last());
    }
}

/// The line breaks in the marks that the rendering writes.
pub proof fn lemma_marks()
    ensures
        line_breaks("::"@) == 0,
        line_breaks(" as "@) == 0,
        line_breaks("{"@) == 0,
        line_breaks("}"@) == 0,
        line_breaks(", "@) == 0,
        line_breaks("*"@) == 0,
        line_breaks("use "@) == 0,
        line_breaks(";"@) == 0,
        line_breaks("\n"@) == 1,
        line_breaks("\n\n"@) == 2,
{
    reveal_strlit("::");
    reveal_strlit(" as ");
    reveal_strlit("{");
    reveal_strlit("}");
    reveal_strlit(", ");
    reveal_strlit("*");
    reveal_strlit("use ");
    reveal_strlit(";");
    reveal_strlit("\n");
    reveal_strlit("\n\n");
    reveal_with_fuel(line_breaks, 6);
}

/// Joining two lists of parts: the joined lists with the separator between
/// them, or the one that is not empty.
pub proof fn lemma_joined_add(front: Seq<Seq<char>>, back: Seq<Seq<char>>, sep: Seq<char>)
    ensures
        joined(front + back, sep) == if front.len() == 0 {
            joined(back, sep)
        } else if back.len() == 0 {
            joined(front, sep)
        } else {
            joined(front, sep) + sep + joined(back, sep)
        },
    decreases front.len(),
{
    if front.len() == 0 {
        assert(front + back =~= back);
    } else if back.len() == 0 {
        assert(front + back =~= front);
    } else {
        let rest = front.drop_first();
        assert((front + back).drop_first() =~= rest + back);
        assert((front + back)[0] == front[0]);
        lemma_joined_add(rest, back, sep);
        if front.len() == 1 {
            assert(rest + back =~= back);
        } else {
            assert(joined(front + back, sep) =~= joined(front, sep) + sep + joined(back, sep));
        }
    }
}

/// Parts without line breaks, joined, have the line breaks of the
/// separators between them.
pub proof fn lemma_joined_line_breaks(parts: Seq<Seq<char>>, sep: Seq<char>)
    requires
        forall|i: int| 0 <= i < parts.len() ==> line_breaks(#[trigger] parts[i]) == 0,
    ensures
        line_breaks(joined(parts, sep)) == if parts.len() == 0 {
            0
        } else {
            (parts.len() - 1) * line_breaks(sep)
        },
    decreases parts.len(),
{
    if parts.len() == 0 {
    } else if parts.len() == 1 {
        assert(line_breaks(parts[0]) == 0);
        assert((parts.len() - 1) * line_breaks(sep) == 0) by (nonlinear_arith)
            requires
                parts.len() == 1,
        ;
    } else {
        let rest = parts.drop_first();
        assert forall|i: int| 0 <= i < rest.len() implies line_breaks(#[trigger] rest[i])
            == 0 by {
            assert(rest[i] == parts[i + 1]);
        }
        lemma_joined_line_breaks(rest, sep);
        lemma_line_breaks_add(parts[0], sep);
        lemma_line_breaks_add(parts[0] + sep, joined(rest, sep));
        assert(line_breaks(parts[0]) == 0);
        assert(joined(parts, sep) == parts[0] + sep + joined(rest, sep));
        let n = parts.len() as int;
        let each = line_breaks(sep);
        assert(line_breaks(joined(rest, sep)) == (n - 2) * each);
        assert((n - 1) * each == each + (n - 2) * each) by (nonlinear_arith);
    }
}

/// A tree whose names hold no line break is written on one line.
pub proof fn lemma_tree_on_one_line(tree: UseTreeView)
    requires
        names_on_one_line(tree),
    ensures
        line_breaks(render_tree(tree)) == 0,
    decreases tree,
{
    lemma_marks();
    lemma_joined_line_breaks(tree.prefix, "::"@);
    let path = render_path(tree.prefix);
    assert(line_breaks(path) == 0) by (nonlinear_arith)
        requires
            line_breaks(path) == if tree.prefix.len() == 0 {
                0
            } else {
                (tree.prefix.len() - 1) * line_breaks("::"@)
            },
            line_breaks("::"@) == 0,
    ;
    lemma_line_breaks_add(path, "::"@);
    let root = render_root(tree.prefix);
    assert(line_breaks(root) == 0) by {
        reveal_with_fuel(line_breaks, 1);
    }
    match tree.kind {
        UseTreeKindView::Simple(None) => {},
        UseTreeKindView::Simple(Some(alias)) => {
            lemma_line_breaks_add(path, " as "@);
            lemma_line_breaks_add(path + " as "@, alias);
        },
        UseTreeKindView::Nested(children) => {
            let parts = render_trees(children);
            assert forall|i: int| 0 <= i < parts.len() implies line_breaks(#[trigger] parts[i])
                == 0 by {
                lemma_tree_on_one_line(children[i]);
            }
            lemma_joined_line_breaks(parts, ", "@);
            let body = joined(parts, ", "@);
            assert(line_breaks(body) == 0) by (nonlinear_arith)
                requires
                    line_breaks(body) == if parts.len() == 0 {
                        0
                    } else {
                        (parts.len() - 1) * line_breaks(", "@)
                    },
                    line_breaks(", "@) == 0,
            ;
            lemma_line_breaks_add(root, "{"@);
            lemma_line_breaks_add(root + "{"@, body);
            lemma_line_breaks_add(root + "{"@ + body, "}"@);
        },
        UseTreeKindView::Glob => {
            lemma_line_breaks_add(root, "*"@);
        },
    }
}

/// The statement of a tree whose names hold no line break is written on one
/// line.
pub proof fn lemma_statement_on_one_line(tree: UseTreeView)
    requires
        names_on_one_line(tree),
    ensures
        line_breaks(render_statement(tree)) == 0,
{
    lemma_marks();
    lemma_tree_on_one_line(tree);
    lemma_line_breaks_add("use "@, render_tree(tree));
    lemma_line_breaks_add("use "@ + render_tree(tree), ";"@);
}

/// Whether no name in any of the declarations holds a line break.
pub open spec fn all_on_one_line(uses: Seq<ImportView>) -> bool {
    forall|i: int| 0 <= i < uses.len() ==> names_on_one_line((#[trigger] uses[i]).tree)
}

/// The text of a block up to its statement `j`: the statements before it,
/// each with its line break.
pub open spec fn block_until(uses: Seq<ImportView>, j: int) -> Seq<char> {
    if j <= 0 {
        Seq::empty()
    } else {
        joined(render_statements(uses).take(j), "\n"@) + "\n"@
    }
}

/// What a block sets before the blocks that follow it: nothing where it
/// has no declaration, else its text and the empty line.
pub open spec fn block_lead(uses: Seq<ImportView>) -> Seq<char> {
    if uses.len() == 0 {
        Seq::empty()
    } else {
        render_block(uses) + "\n\n"@
    }
}

/// The suggested text up to statement `k`, counted over the three blocks.
pub open spec fn text_before(uses: Seq<ImportView>, k: int) -> Seq<char> {
    let std_uses = group(uses, Category::Std);
    let other_uses = group(uses, Category::Other);
    let crate_uses = group(uses, Category::SuperOrCrate);
    if k < std_uses.len() {
        block_until(std_uses, k)
    } else if k < std_uses.len() + other_uses.len() {
        block_lead(std_uses) + block_until(other_uses, k - std_uses.len())
    } else {
        block_lead(std_uses) + block_lead(other_uses) + block_until(
            crate_uses,
            k - std_uses.len() - other_uses.len(),
        )
    }
}

/// A block begins with the text up to its statement `j` and that statement,
/// and the text up to the statement holds `j` line breaks.
proof fn lemma_block_until(uses: Seq<ImportView>, j: int)
    requires
        all_on_one_line(uses),
        0 <= j < uses.len(),
    ensures
        (block_until(uses, j) + render_statement(uses[j].tree)).is_prefix_of(render_block(uses)),
        line_breaks(block_until(uses, j)) == j,
        line_breaks(render_block(uses)) == uses.len() - 1,
{
    lemma_marks();
    let all = render_statements(uses);
    let sep = "\n"@;
    assert forall|i: int| 0 <= i < all.len() implies line_breaks(#[trigger] all[i]) == 0 by {
        assert(names_on_one_line(uses[i].tree));
        lemma_statement_on_one_line(uses[i].tree);
    }
    lemma_joined_line_breaks(all, sep);
    assert((all.len() - 1) * 1 == all.len() - 1) by (nonlinear_arith);
    let front = all.take(j);
    let from = all.skip(j);
    let after = from.drop_first();
    assert(all =~= front + from);
    assert(from =~= seq![all[j]] + after);
    lemma_joined_add(front, from, sep);
    lemma_joined_add(seq![all[j]], after, sep);
    assert(joined(seq![all[j]], sep) == all[j]);
    let until = block_until(uses, j);
    let rest = if after.len() == 0 {
        Seq::<char>::empty()
    } else {
        sep + joined(after, sep)
    };
    assert(render_block(uses) =~= until + all[j] + rest);
    assert((until + all[j]).is_prefix_of(until + all[j] + rest));
    if j > 0 {
        assert forall|i: int| 0 <= i < front.len() implies line_breaks(#[trigger] front[i])
            == 0 by {
            assert(front[i] == all[i]);
        }
        lemma_joined_line_breaks(front, sep);
        assert((front.len() - 1) * 1 == front.len() - 1) by (nonlinear_arith);
        lemma_line_breaks_add(joined(front, sep), sep);
    }
}

/// What a block sets before the blocks that follow it holds as many line
/// breaks as the block is high.
proof fn lemma_block_lead(uses: Seq<ImportView>)
    requires
        all_on_one_line(uses),
    ensures
        line_breaks(block_lead(uses)) == block_height(uses.len() as int),
{
    if uses.len() > 0 {
        lemma_marks();
        lemma_block_until(uses, 0);
        lemma_line_breaks_add(render_block(uses), "\n\n"@);
    }
}

/// The text of blocks joined by empty lines, with a line break at its end,
/// is what the blocks before one of them set before it, that block, and a
/// rest.
pub proof fn lemma_block_in_text(before: Seq<Seq<char>>, block: Seq<char>, after: Seq<Seq<char>>) -> (rest:
    Seq<char>)
    ensures
        joined(before + seq![block] + after, "\n\n"@) + "\n"@ == (if before.len() == 0 {
            Seq::<char>::empty()
        } else {
            joined(before, "\n\n"@) + "\n\n"@
        }) + block + rest,
        after.len() == 0 ==> rest == "\n"@,
{
    let gap = "\n\n"@;
    let end = "\n"@;
    let from = seq![block] + after;
    assert(before + seq![block] + after =~= before + from);
    lemma_joined_add(before, from, gap);
    lemma_joined_add(seq![block], after, gap);
    assert(joined(seq![block], gap) == block);
    let rest = if after.len() == 0 {
        end
    } else {
        gap + joined(after, gap) + end
    };
    let lead = if before.len() == 0 {
        Seq::<char>::empty()
    } else {
        joined(before, gap) + gap
    };
    assert(joined(before + from, gap) + end =~= lead + block + rest);
    rest
}

/// The declarations of a tier have no line break in their names where
/// those of the whole list have none.
proof fn lemma_group_on_one_line(uses: Seq<ImportView>, category: Category)
    requires
        all_on_one_line(uses),
    ensures
        all_on_one_line(group(uses, category)),
{
    let places = lemma_group_places(uses, category);
    let block = group(uses, category);
    assert forall|i: int| 0 <= i < block.len() implies names_on_one_line(
        (#[trigger] block[i]).tree,
    ) by {
        assert(block[i] == uses[places[i]]);
    }
}

/// A text that begins a block begins, after what leads to the block, the
/// whole in which the block stands.
proof fn lemma_prefix_within(
    lead: Seq<char>,
    inner: Seq<char>,
    block: Seq<char>,
    tail: Seq<char>,
)
    requires
        inner.is_prefix_of(block),
    ensures
        (lead + inner).is_prefix_of(lead + block + tail),
{
    let whole = lead + block + tail;
    let head = lead + inner;
    assert(block.subrange(0, inner.len() as int) == inner);
    assert(whole.subrange(0, head.len() as int) =~= head);
}

/// Statement `k` of the suggested text stands on the line that
/// `statement_line` gives: the text begins with what comes before the
/// statement and the statement itself, what comes before holds as many line
/// breaks as that line lies below the first, and the statement holds none.
/// This holds where no name of a declaration holds a line break.
pub proof fn lemma_statement_stands_on_its_line(uses: Seq<ImportView>, first_line: int, k: int)
    requires
        all_on_one_line(uses),
        0 <= k < regrouped(uses).len(),
    ensures
        (text_before(uses, k) + render_statement(regrouped(uses)[k].tree)).is_prefix_of(
            render_fix(uses),
        ),
        first_line + line_breaks(text_before(uses, k)) == statement_line(uses, first_line, k),
        line_breaks(render_statement(regrouped(uses)[k].tree)) == 0,
{
    let std_uses = group(uses, Category::Std);
    let other_uses = group(uses, Category::Other);
    let crate_uses = group(uses, Category::SuperOrCrate);
    lemma_group_on_one_line(uses, Category::Std);
    lemma_group_on_one_line(uses, Category::Other);
    lemma_group_on_one_line(uses, Category::SuperOrCrate);
    let b1 = block_if_any(std_uses);
    let b2 = block_if_any(other_uses);
    let b3 = block_if_any(crate_uses);
    let gap = "\n\n"@;
    let text = render_fix(uses);
    let before = text_before(uses, k);
    let import = regrouped(uses)[k];
    let statement = render_statement(import.tree);
    let nothing = Seq::<Seq<char>>::empty();
    if k < std_uses.len() {
        assert(import == std_uses[k]);
        lemma_statement_on_one_line(import.tree);
        lemma_block_until(std_uses, k);
        let block = render_block(std_uses);
        assert((before + statement).is_prefix_of(text)) by {
            let rest = lemma_block_in_text(nothing, block, b2 + b3);
            assert(nothing + seq![block] + (b2 + b3) =~= b1 + b2 + b3);
            lemma_prefix_within(Seq::empty(), before + statement, block, rest);
            assert(Seq::<char>::empty() + (before + statement) =~= before + statement);
        }
    } else if k < std_uses.len() + other_uses.len() {
        let j = k - std_uses.len();
        assert(import == other_uses[j]);
        lemma_statement_on_one_line(import.tree);
        lemma_block_until(other_uses, j);
        let block = render_block(other_uses);
        let until = block_until(other_uses, j);
        let lead = block_lead(std_uses);
        assert(lead == if b1.len() == 0 {
            Seq::<char>::empty()
        } else {
            joined(b1, gap) + gap
        });
        assert((before + statement).is_prefix_of(text)) by {
            let rest = lemma_block_in_text(b1, block, b3);
            assert(b1 + seq![block] + b3 =~= b1 + b2 + b3);
            lemma_prefix_within(lead, until + statement, block, rest);
            assert(lead + (until + statement) =~= before + statement);
        }
        assert(first_line + line_breaks(before) == statement_line(uses, first_line, k)) by {
            lemma_block_lead(std_uses);
            lemma_line_breaks_add(lead, until);
        }
    } else {
        let j = k - std_uses.len() - other_uses.len();
        assert(import == crate_uses[j]);
        lemma_statement_on_one_line(import.tree);
        lemma_block_until(crate_uses, j);
        let block = render_block(crate_uses);
        let until = block_until(crate_uses, j);
        let lead = block_lead(std_uses) + block_lead(other_uses);
        assert(lead == if (b1 + b2).len() == 0 {
            Seq::<char>::empty()
        } else {
            joined(b1 + b2, gap) + gap
        }) by {
            lemma_joined_add(b1, b2, gap);
            assert(lead =~= if (b1 + b2).len() == 0 {
                Seq::<char>::empty()
            } else {
                joined(b1 + b2, gap) + gap
            });
        }
        assert((before + statement).is_prefix_of(text)) by {
            let rest = lemma_block_in_text(b1 + b2, block, nothing);
            assert(b1 + b2 + seq![block] + nothing =~= b1 + b2 + b3);
            lemma_prefix_within(lead, until + statement, block, rest);
            assert(lead + (until + statement) =~= before + statement);
        }
        assert(first_line + line_breaks(before) == statement_line(uses, first_line, k)) by {
            lemma_block_lead(std_uses);
            lemma_block_lead(other_uses);
            lemma_line_breaks_add(block_lead(std_uses), block_lead(other_uses));
            lemma_line_breaks_add(lead, until);
        }
    }
}

} // verus!
