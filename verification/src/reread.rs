//! That the suggested text, read back statement by statement, calls for no
//! further rewrite.

use vstd::prelude::*;
use crate::category::Category;
use crate::check::needs_rewrite;
use crate::fix::{block_if_any, render_fix};
use crate::groups::{group, lemma_group_places};
use crate::import::{ImportView, ItemView};
use crate::layout::{
    all_on_one_line, block_lead, block_until, lemma_block_in_text, lemma_fix_is_accepted,
    lemma_joined_add, lemma_line_breaks_add, lemma_marks, lemma_statement_on_one_line,
    lemma_statement_stands_on_its_line, line_breaks, names_on_one_line, reads_back, regrouped,
    statement_line, text_before,
};
use crate::reading::{is_well_formed, lemma_text_determines_tree};
use crate::region::{
    arranged, imports_of, is_source_order, lemma_sorted_by_position, sorted_by_position,
};
use crate::render::{
    joined, lemma_joined_push, render_block, render_statement, render_statements, render_tree,
};
use crate::span::{LineRangeView, SpanView};
use crate::tree::UseTreeView;

verus! {

/// Whether place `i` of a text lies in piece `k`, the pieces being given by
/// where they start and how long they are.
pub open spec fn holds(starts: Seq<int>, lens: Seq<int>, k: int, i: int) -> bool {
    0 <= k < starts.len() && starts[k] <= i < starts[k] + lens[k]
}

/// Whether the pieces are the lines of the text that are not empty: each
/// lies in the text and holds a character, they follow one another with
/// room between them, none holds a line break, and every character that is
/// no line break lies in one of them.
pub open spec fn is_split(text: Seq<char>, starts: Seq<int>, lens: Seq<int>) -> bool {
    &&& starts.len() == lens.len()
    &&& forall|k: int|
        0 <= k < starts.len() ==> 0 <= #[trigger] starts[k] && lens[k] > 0 && starts[k] + lens[k]
            <= text.len()
    &&& forall|a: int, b: int|
        #![trigger starts[a], starts[b]]
        0 <= a < b < starts.len() ==> starts[a] + lens[a] < starts[b]
    &&& forall|k: int, i: int| #[trigger] holds(starts, lens, k, i) ==> text[i] != '\n'
    &&& forall|i: int|
        0 <= i < text.len() && #[trigger] text[i] != '\n' ==> exists|k: int|
            holds(starts, lens, k, i)
}

/// Two ways to split a text agree on their first `upto` pieces.
proof fn lemma_splits_agree(
    text: Seq<char>,
    starts: Seq<int>,
    lens: Seq<int>,
    others: Seq<int>,
    other_lens: Seq<int>,
    upto: int,
)
    requires
        is_split(text, starts, lens),
        is_split(text, others, other_lens),
        0 <= upto <= starts.len(),
    ensures
        upto <= others.len(),
        forall|k: int| 0 <= k < upto ==> starts[k] == others[k] && lens[k] == other_lens[k],
    decreases upto,
{
    if upto > 0 {
        let k = upto - 1;
        lemma_splits_agree(text, starts, lens, others, other_lens, k);
        let p = starts[k];
        assert(holds(starts, lens, k, p));
        assert(text[p] != '\n');
        let k2 = choose|j: int| holds(others, other_lens, j, p);
        assert(holds(others, other_lens, k2, p));
        if k2 < k {
            assert(starts[k2] + lens[k2] < starts[k]);
            assert(false);
        }
        let q = others[k];
        assert(holds(others, other_lens, k, q));
        assert(text[q] != '\n');
        let k1 = choose|j: int| holds(starts, lens, j, q);
        assert(holds(starts, lens, k1, q));
        if k1 < k {
            assert(others[k1] + other_lens[k1] < others[k]);
            assert(false);
        }
        if k1 > k {
            assert(starts[k] + lens[k] < starts[k1]);
        }
        if k2 > k {
            assert(others[k] + other_lens[k] < others[k2]);
        }
        assert(p == q);
        let end = p + lens[k];
        let other_end = q + other_lens[k];
        if end < other_end {
            assert(holds(others, other_lens, k, end));
            assert(text[end] != '\n');
            let j = choose|j: int| holds(starts, lens, j, end);
            assert(holds(starts, lens, j, end));
            if j < k {
                assert(starts[j] + lens[j] < starts[k]);
            }
            if j > k {
                assert(starts[k] + lens[k] < starts[j]);
            }
            assert(false);
        }
        if other_end < end {
            assert(holds(starts, lens, k, other_end));
            assert(text[other_end] != '\n');
            let j = choose|j: int| holds(others, other_lens, j, other_end);
            assert(holds(others, other_lens, j, other_end));
            if j < k {
                assert(others[j] + other_lens[j] < others[k]);
            }
            if j > k {
                assert(others[k] + other_lens[k] < others[j]);
            }
            assert(false);
        }
    }
}

/// A text is split into its lines that are not empty in one way only.
pub proof fn lemma_split_is_unique(
    text: Seq<char>,
    starts: Seq<int>,
    lens: Seq<int>,
    others: Seq<int>,
    other_lens: Seq<int>,
)
    requires
        is_split(text, starts, lens),
        is_split(text, others, other_lens),
    ensures
        starts == others,
        lens == other_lens,
{
    lemma_splits_agree(text, starts, lens, others, other_lens, starts.len() as int);
    lemma_splits_agree(text, others, other_lens, starts, lens, others.len() as int);
    assert(starts =~= others);
    assert(lens =~= other_lens);
}

/// No text holds fewer than no line breaks.
proof fn lemma_line_breaks_count(text: Seq<char>)
    ensures
        line_breaks(text) >= 0,
    decreases text.len(),
{
    if text.len() > 0 {
        lemma_line_breaks_count(text.drop_last());
    }
}

/// A text without line breaks holds no line break at any place.
proof fn lemma_no_line_break_at(text: Seq<char>, i: int)
    requires
        line_breaks(text) == 0,
        0 <= i < text.len(),
    ensures
        text[i] != '\n',
    decreases text.len(),
{
    lemma_line_breaks_count(text.drop_last());
    if i < text.len() - 1 {
        lemma_no_line_break_at(text.drop_last(), i);
    }
}

/// The statement at place `k` of the suggested text.
pub open spec fn statement(uses: Seq<ImportView>, k: int) -> Seq<char> {
    render_statement(regrouped(uses)[k].tree)
}

/// Where the statements of the suggested text start.
pub open spec fn statement_starts(uses: Seq<ImportView>) -> Seq<int> {
    Seq::new(regrouped(uses).len(), |k: int| text_before(uses, k).len() as int)
}

/// How long the statements of the suggested text are.
pub open spec fn statement_lens(uses: Seq<ImportView>) -> Seq<int> {
    Seq::new(regrouped(uses).len(), |k: int| statement(uses, k).len() as int)
}

/// A block up to a statement and that statement are the statements up to
/// and with it, joined; another line break leads to the next statement, and
/// with the last statement the block is whole.
proof fn lemma_block_through(uses: Seq<ImportView>, j: int)
    requires
        0 <= j < uses.len(),
    ensures
        j + 1 < uses.len() ==> block_until(uses, j + 1) == block_until(uses, j)
            + render_statement(uses[j].tree) + "\n"@,
        j + 1 == uses.len() ==> render_block(uses) == block_until(uses, j) + render_statement(
            uses[j].tree,
        ),
{
    let all = render_statements(uses);
    let sep = "\n"@;
    lemma_joined_push(all.take(j), all[j], sep);
    assert(all.take(j + 1) =~= all.take(j).push(all[j]));
    assert(all.take(uses.len() as int) =~= all);
    if j == 0 {
        assert(block_until(uses, 0) + all[0] =~= all[0]);
    }
}

/// After a statement that has another behind it, line breaks lead to that
/// one: one within a block, two from one block to the next.
proof fn lemma_next_statement(uses: Seq<ImportView>, k: int) -> (gap: Seq<char>)
    requires
        0 <= k,
        k + 1 < regrouped(uses).len(),
    ensures
        text_before(uses, k + 1) == text_before(uses, k) + statement(uses, k) + gap,
        gap == "\n"@ || gap == "\n\n"@,
{
    let std_uses = group(uses, Category::Std);
    let other_uses = group(uses, Category::Other);
    let crate_uses = group(uses, Category::SuperOrCrate);
    let n1 = std_uses.len() as int;
    let n2 = other_uses.len() as int;
    let here = text_before(uses, k) + statement(uses, k);
    let next = text_before(uses, k + 1);
    let empty = Seq::<char>::empty();
    if k < n1 {
        assert(regrouped(uses)[k] == std_uses[k]);
        lemma_block_through(std_uses, k);
        if k + 1 < n1 {
            "\n"@
        } else {
            assert(block_until(other_uses, 0) == empty);
            assert(block_until(crate_uses, 0) == empty);
            assert(next =~= here + "\n\n"@);
            "\n\n"@
        }
    } else if k < n1 + n2 {
        let j = k - n1;
        assert(regrouped(uses)[k] == other_uses[j]);
        lemma_block_through(other_uses, j);
        if k + 1 < n1 + n2 {
            assert(next =~= here + "\n"@);
            "\n"@
        } else {
            assert(block_until(crate_uses, 0) == empty);
            assert(next =~= here + "\n\n"@);
            "\n\n"@
        }
    } else {
        let j = k - n1 - n2;
        assert(regrouped(uses)[k] == crate_uses[j]);
        lemma_block_through(crate_uses, j);
        assert(next =~= here + "\n"@);
        "\n"@
    }
}

/// The suggested text ends with its last statement and a line break; with
/// no statement it is a line break.
proof fn lemma_last_statement(uses: Seq<ImportView>)
    ensures
        regrouped(uses).len() == 0 ==> render_fix(uses) == "\n"@,
        regrouped(uses).len() > 0 ==> render_fix(uses) == text_before(
            uses,
            regrouped(uses).len() - 1,
        ) + statement(uses, regrouped(uses).len() - 1) + "\n"@,
        regrouped(uses).len() > 0 ==> text_before(uses, 0).len() == 0,
{
    let std_uses = group(uses, Category::Std);
    let other_uses = group(uses, Category::Other);
    let crate_uses = group(uses, Category::SuperOrCrate);
    let n1 = std_uses.len() as int;
    let n2 = other_uses.len() as int;
    let n3 = crate_uses.len() as int;
    let b1 = block_if_any(std_uses);
    let b2 = block_if_any(other_uses);
    let b3 = block_if_any(crate_uses);
    let gap = "\n\n"@;
    let n = regrouped(uses).len() as int;
    let nothing = Seq::<Seq<char>>::empty();
    let text = render_fix(uses);
    if n == 0 {
        assert(b1 + b2 + b3 =~= nothing);
        assert(text =~= "\n"@);
    } else {
        let k = n - 1;
        if n3 > 0 {
            let j = n3 - 1;
            assert(regrouped(uses)[k] == crate_uses[j]);
            lemma_block_through(crate_uses, j);
            let rest = lemma_block_in_text(b1 + b2, render_block(crate_uses), nothing);
            assert(b1 + b2 + seq![render_block(crate_uses)] + nothing =~= b1 + b2 + b3);
            lemma_joined_add(b1, b2, gap);
            assert(text =~= text_before(uses, k) + statement(uses, k) + "\n"@);
        } else if n2 > 0 {
            let j = n2 - 1;
            assert(regrouped(uses)[k] == other_uses[j]);
            lemma_block_through(other_uses, j);
            let rest = lemma_block_in_text(b1, render_block(other_uses), nothing);
            assert(b1 + seq![render_block(other_uses)] + nothing =~= b1 + b2 + b3);
            assert(block_lead(crate_uses) == Seq::<char>::empty());
            if n1 > 0 {
                assert(joined(b1, gap) == render_block(std_uses));
            }
            assert(text =~= text_before(uses, k) + statement(uses, k) + "\n"@);
        } else {
            let j = n1 - 1;
            assert(regrouped(uses)[k] == std_uses[j]);
            lemma_block_through(std_uses, j);
            let rest = lemma_block_in_text(nothing, render_block(std_uses), nothing);
            assert(nothing + seq![render_block(std_uses)] + nothing =~= b1 + b2 + b3);
            assert(text == Seq::<char>::empty() + render_block(std_uses) + "\n"@);
            assert(text =~= text_before(uses, k) + statement(uses, k) + "\n"@);
        }
        assert(text_before(uses, 0) =~= Seq::<char>::empty());
    }
}

/// Each statement of the suggested text ends before the next one starts.
proof fn lemma_statements_ascend(uses: Seq<ImportView>, a: int, b: int)
    requires
        0 <= a < b < regrouped(uses).len(),
    ensures
        text_before(uses, a).len() + statement(uses, a).len() < text_before(uses, b).len(),
    decreases b,
{
    lemma_marks();
    let gap = lemma_next_statement(uses, b - 1);
    assert(gap.len() > 0) by {
        reveal_strlit("\n");
        reveal_strlit("\n\n");
    }
    if a < b - 1 {
        lemma_statements_ascend(uses, a, b - 1);
    }
}

/// Up to the end of statement `k`, every character of the suggested text
/// that is no line break lies in a statement.
proof fn lemma_statements_cover(uses: Seq<ImportView>, k: int)
    requires
        all_on_one_line(uses),
        0 <= k < regrouped(uses).len(),
    ensures
        forall|i: int|
            0 <= i < text_before(uses, k).len() + statement(uses, k).len() && #[trigger] render_fix(
                uses,
            )[i] != '\n' ==> exists|j: int|
                holds(statement_starts(uses), statement_lens(uses), j, i),
    decreases k,
{
    let text = render_fix(uses);
    let starts = statement_starts(uses);
    let lens = statement_lens(uses);
    let here = text_before(uses, k);
    lemma_statement_stands_on_its_line(uses, 0, k);
    lemma_last_statement(uses);
    if k == 0 {
        assert forall|i: int|
            0 <= i < here.len() + statement(uses, k).len() && #[trigger] text[i]
                != '\n' implies exists|j: int| holds(starts, lens, j, i) by {
            assert(holds(starts, lens, 0, i));
        }
    } else {
        lemma_statements_cover(uses, k - 1);
        let gap = lemma_next_statement(uses, k - 1);
        let before = text_before(uses, k - 1) + statement(uses, k - 1);
        assert forall|i: int|
            0 <= i < here.len() + statement(uses, k).len() && #[trigger] text[i]
                != '\n' implies exists|j: int| holds(starts, lens, j, i) by {
            if i < before.len() {
            } else if i < here.len() {
                reveal_strlit("\n");
                reveal_strlit("\n\n");
                assert(text[i] == (here + statement(uses, k))[i]);
                assert(here[i] == gap[i - before.len()]);
                assert(false);
            } else {
                assert(holds(starts, lens, k, i));
            }
        }
    }
}

/// The statements of the suggested text are its lines that are not empty.
pub proof fn lemma_fix_splits(uses: Seq<ImportView>)
    requires
        all_on_one_line(uses),
    ensures
        is_split(render_fix(uses), statement_starts(uses), statement_lens(uses)),
{
    let text = render_fix(uses);
    let starts = statement_starts(uses);
    let lens = statement_lens(uses);
    let n = regrouped(uses).len() as int;
    reveal_strlit("use ");
    reveal_strlit("\n");
    assert forall|k: int| 0 <= k < starts.len() implies 0 <= #[trigger] starts[k] && lens[k] > 0
        && starts[k] + lens[k] <= text.len() by {
        lemma_statement_stands_on_its_line(uses, 0, k);
    }
    assert forall|a: int, b: int|
        #![trigger starts[a], starts[b]]
        0 <= a < b < starts.len() implies starts[a] + lens[a] < starts[b] by {
        lemma_statements_ascend(uses, a, b);
    }
    assert forall|k: int, i: int| #[trigger] holds(starts, lens, k, i) implies text[i]
        != '\n' by {
        lemma_statement_stands_on_its_line(uses, 0, k);
        let whole = text_before(uses, k) + statement(uses, k);
        assert(text[i] == whole[i]);
        lemma_no_line_break_at(statement(uses, k), i - starts[k]);
    }
    lemma_last_statement(uses);
    assert forall|i: int| 0 <= i < text.len() && #[trigger] text[i] != '\n' implies exists|
        k: int,
    | holds(starts, lens, k, i) by {
        if n > 0 {
            lemma_statements_cover(uses, n - 1);
        }
    }
}

/// Whether the trees of the declarations are such as source text can state
/// on one line: well formed, and with no line break in a name.
pub open spec fn are_readable(uses: Seq<ImportView>) -> bool {
    forall|i: int|
        0 <= i < uses.len() ==> is_well_formed((#[trigger] uses[i]).tree) && names_on_one_line(
            uses[i].tree,
        )
}

/// How long the statements of the declarations are.
pub open spec fn lens_of(fixed: Seq<ImportView>) -> Seq<int> {
    Seq::new(fixed.len(), |k: int| render_statement(fixed[k].tree).len() as int)
}

/// Whether `fixed` is what a module holds once `text` stands in it from
/// line `first_line` on, the statement of declaration `k` starting at place
/// `starts[k]` of the text: each statement stands there as it is written,
/// the statements follow one another with room between them, nothing but
/// line breaks stands outside them, each declaration touches the lines from
/// that on which its statement starts to that on which it ends, and each
/// starts before the next.
pub open spec fn reads_text(
    fixed: Seq<ImportView>,
    starts: Seq<int>,
    text: Seq<char>,
    first_line: int,
) -> bool {
    &&& starts.len() == fixed.len()
    &&& forall|k: int|
        0 <= k < fixed.len() ==> 0 <= #[trigger] starts[k] && starts[k] + lens_of(fixed)[k]
            <= text.len() && text.subrange(starts[k], starts[k] + lens_of(fixed)[k])
            == render_statement(fixed[k].tree)
    &&& forall|a: int, b: int|
        #![trigger starts[a], starts[b]]
        0 <= a < b < fixed.len() ==> starts[a] + lens_of(fixed)[a] < starts[b]
    &&& forall|i: int|
        0 <= i < text.len() && #[trigger] text[i] != '\n' ==> exists|k: int|
            holds(starts, lens_of(fixed), k, i)
    &&& forall|k: int|
        0 <= k < fixed.len() ==> (#[trigger] fixed[k]).lines == (LineRangeView {
            first: first_line + line_breaks(text.take(starts[k])),
            last: first_line + line_breaks(text.take(starts[k] + lens_of(fixed)[k])),
        })
    &&& forall|a: int, b: int|
        0 <= a < b < fixed.len() ==> (#[trigger] fixed[a]).span.starts_before(
            (#[trigger] fixed[b]).span,
        )
}

/// Two well-formed trees whose statements are written alike are the same
/// tree.
proof fn lemma_statement_determines_tree(first: UseTreeView, second: UseTreeView)
    requires
        is_well_formed(first),
        is_well_formed(second),
        render_statement(first) == render_statement(second),
    ensures
        first == second,
{
    reveal_strlit("use ");
    reveal_strlit(";");
    let one = render_tree(first);
    let other = render_tree(second);
    let whole = render_statement(first);
    assert(whole.len() == 4 + one.len() + 1);
    assert(render_statement(second).len() == 4 + other.len() + 1);
    assert(one =~= other) by {
        assert forall|i: int| 0 <= i < one.len() implies one[i] == other[i] by {
            assert(whole[i + 4] == one[i]);
            assert(render_statement(second)[i + 4] == other[i]);
        }
    }
    lemma_text_determines_tree(first, second);
}

/// The declarations of the suggested text are readable where those of the
/// module are.
proof fn lemma_regrouped_readable(uses: Seq<ImportView>)
    requires
        are_readable(uses),
    ensures
        are_readable(regrouped(uses)),
        all_on_one_line(uses),
{
    let all = regrouped(uses);
    let std_uses = group(uses, Category::Std);
    let other_uses = group(uses, Category::Other);
    let crate_uses = group(uses, Category::SuperOrCrate);
    let std_places = lemma_group_places(uses, Category::Std);
    let other_places = lemma_group_places(uses, Category::Other);
    let crate_places = lemma_group_places(uses, Category::SuperOrCrate);
    assert forall|k: int| 0 <= k < all.len() implies is_well_formed((#[trigger] all[k]).tree)
        && names_on_one_line(all[k].tree) by {
        if k < std_uses.len() {
            assert(all[k] == uses[std_places[k]]);
        } else if k < std_uses.len() + other_uses.len() {
            assert(all[k] == uses[other_places[k - std_uses.len()]]);
        } else {
            assert(all[k] == uses[crate_places[k - std_uses.len() - other_uses.len()]]);
        }
    }
}

/// A module in which the suggested text stands gets no further suggestion.
///
/// `uses` are the declarations of a module in source order and `fixed`
/// those of the module once the text suggested for `uses` has been put in:
/// any declarations whose statements, written one to a line, make up that
/// text. Then `fixed` holds the trees of the three blocks on the lines of
/// their statements, and the analysis of `fixed` calls for no rewrite. This
/// holds where the trees on both sides are such as source text can state.
pub proof fn lemma_fixed_text_is_accepted(
    uses: Seq<ImportView>,
    fixed: Seq<ImportView>,
    starts: Seq<int>,
    first_line: int,
)
    requires
        are_readable(uses),
        are_readable(fixed),
        reads_text(fixed, starts, render_fix(uses), first_line),
    ensures
        reads_back(fixed, uses, first_line),
        !needs_rewrite(sorted_by_position(fixed)),
{
    let text = render_fix(uses);
    let lens = lens_of(fixed);
    lemma_regrouped_readable(uses);
    lemma_fix_splits(uses);
    reveal_strlit("use ");
    assert(is_split(text, starts, lens)) by {
        assert forall|k: int, i: int| #[trigger] holds(starts, lens, k, i) implies text[i]
            != '\n' by {
            let written = render_statement(fixed[k].tree);
            assert(text.subrange(starts[k], starts[k] + lens[k]) == written);
            assert(text[i] == text.subrange(starts[k], starts[k] + lens[k])[i - starts[k]]);
            lemma_statement_on_one_line(fixed[k].tree);
            lemma_no_line_break_at(written, i - starts[k]);
        }
    }
    lemma_split_is_unique(text, starts, lens, statement_starts(uses), statement_lens(uses));
    let all = regrouped(uses);
    assert(fixed.len() == all.len());
    assert forall|k: int| 0 <= k < fixed.len() implies (#[trigger] fixed[k]).tree
        == all[k].tree && fixed[k].lines == (LineRangeView {
        first: statement_line(uses, first_line, k),
        last: statement_line(uses, first_line, k),
    }) by {
        lemma_statement_stands_on_its_line(uses, first_line, k);
        let before = text_before(uses, k);
        let written = statement(uses, k);
        assert(starts[k] == before.len());
        assert(lens[k] == written.len());
        assert(text.take(starts[k]) =~= before);
        assert(text.take(starts[k] + lens[k]) =~= before + written);
        assert(text.subrange(starts[k], starts[k] + lens[k]) =~= written) by {
            let whole = before + written;
            assert(text.subrange(0, whole.len() as int) == whole);
            assert forall|i: int| 0 <= i < written.len() implies text[starts[k] + i]
                == written[i] by {
                assert(text.subrange(0, whole.len() as int)[starts[k] + i] == whole[starts[k]
                    + i]);
            }
        }
        lemma_line_breaks_add(before, written);
        assert(is_well_formed(all[k].tree));
        lemma_statement_determines_tree(fixed[k].tree, all[k].tree);
    }
    lemma_fix_is_accepted(fixed, uses, first_line);
}

/// The declarations of a list in source order are readable where those of
/// the list are.
proof fn lemma_sorted_readable(uses: Seq<ImportView>)
    requires
        are_readable(uses),
    ensures
        are_readable(sorted_by_position(uses)),
{
    let sorted = sorted_by_position(uses);
    lemma_sorted_by_position(uses, sorted);
    let order = choose|order: Seq<int>|
        is_source_order(order, uses) && sorted == arranged(uses, order);
    assert forall|k: int| 0 <= k < sorted.len() implies is_well_formed(
        (#[trigger] sorted[k]).tree,
    ) && names_on_one_line(sorted[k].tree) by {
        assert(sorted[k] == uses[order[k]]);
    }
}

/// Putting the suggestion in and looking again finds nothing.
///
/// `items` is a module body and `fixed_items` the body once the text that
/// is suggested for `items` stands in it, from line `first_line` on, in
/// place of all its `use` declarations: the declarations of `fixed_items`
/// are any whose statements, written one to a line, make up that text.
/// Then `fixed_items` gets no suggestion. This holds where the trees on
/// both sides are such as source text can state.
pub proof fn lemma_fixed_module_gets_no_suggestion(
    items: Seq<ItemView>,
    fixed_items: Seq<ItemView>,
    starts: Seq<int>,
    first_line: int,
)
    requires
        are_readable(imports_of(items)),
        are_readable(imports_of(fixed_items)),
        reads_text(
            imports_of(fixed_items),
            starts,
            render_fix(sorted_by_position(imports_of(items))),
            first_line,
        ),
    ensures
        !needs_rewrite(sorted_by_position(imports_of(fixed_items))),
{
    lemma_sorted_readable(imports_of(items));
    lemma_fixed_text_is_accepted(
        sorted_by_position(imports_of(items)),
        imports_of(fixed_items),
        starts,
        first_line,
    );
}

/// The suggested text can be read back: the declarations of its
/// statements, each on the lines of its statement and spanning the places
/// of its statement, are a reading of it.
pub proof fn lemma_fix_can_be_read(uses: Seq<ImportView>, first_line: int) -> (fixed: Seq<
    ImportView,
>)
    requires
        all_on_one_line(uses),
    ensures
        reads_text(fixed, statement_starts(uses), render_fix(uses), first_line),
        fixed.len() == regrouped(uses).len(),
        forall|k: int| 0 <= k < fixed.len() ==> (#[trigger] fixed[k]).tree == regrouped(uses)[k].tree,
{
    let text = render_fix(uses);
    let starts = statement_starts(uses);
    let lens = statement_lens(uses);
    let all = regrouped(uses);
    let fixed = Seq::new(
        all.len(),
        |k: int|
            ImportView {
                span: SpanView { file: 0, lo: starts[k], hi: starts[k] + lens[k] },
                lines: LineRangeView {
                    first: first_line + line_breaks(text.take(starts[k])),
                    last: first_line + line_breaks(text.take(starts[k] + lens[k])),
                },
                tree: all[k].tree,
            },
    );
    lemma_fix_splits(uses);
    assert(lens_of(fixed) =~= lens);
    assert forall|k: int| 0 <= k < fixed.len() implies text.subrange(
        #[trigger] starts[k],
        starts[k] + lens[k],
    ) == render_statement(fixed[k].tree) by {
        lemma_statement_stands_on_its_line(uses, first_line, k);
        let before = text_before(uses, k);
        let written = statement(uses, k);
        let whole = before + written;
        assert(text.subrange(0, whole.len() as int) == whole);
        assert forall|i: int| 0 <= i < written.len() implies text[starts[k] + i]
            == written[i] by {
            assert(text.subrange(0, whole.len() as int)[starts[k] + i] == whole[starts[k] + i]);
        }
        assert(text.subrange(starts[k], starts[k] + lens[k]) =~= written);
    }
    assert forall|a: int, b: int| 0 <= a < b < fixed.len() implies (#[trigger] fixed[a]).span.starts_before(
        (#[trigger] fixed[b]).span,
    ) by {
        assert(starts[a] + lens[a] < starts[b]);
    }
    fixed
}

} // verus!
