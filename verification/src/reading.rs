//! That the text of a tree can be read in one way only.

use vstd::prelude::*;
use vstd::seq::axiom_seq_subrange_decreases;
use crate::render::{joined, render_path, render_root, render_tree, render_trees};
use crate::tree::{UseTreeKindView, UseTreeView};

verus! {

/// Whether the character is one of the marks that the text of a tree sets
/// between names.
pub open spec fn is_mark(c: char) -> bool {
    c == ':' || c == ' ' || c == ',' || c == '{' || c == '}' || c == '*'
}

/// Whether the text is a name: at least one character, and no mark.
pub open spec fn is_name(text: Seq<char>) -> bool {
    text.len() > 0 && forall|i: int| 0 <= i < text.len() ==> !is_mark(#[trigger] text[i])
}

/// Whether every text of the list is a name.
pub open spec fn are_names(texts: Seq<Seq<char>>) -> bool {
    forall|i: int| 0 <= i < texts.len() ==> is_name(#[trigger] texts[i])
}

/// Whether the tree is one that source text can state: its segments and
/// aliases are names, a simple tree has a prefix, and its children are such
/// trees too.
pub open spec fn is_well_formed(tree: UseTreeView) -> bool
    decreases tree,
{
    &&& are_names(tree.prefix)
    &&& match tree.kind {
        UseTreeKindView::Simple(None) => tree.prefix.len() > 0,
        UseTreeKindView::Simple(Some(alias)) => tree.prefix.len() > 0 && is_name(alias),
        UseTreeKindView::Nested(children) => forall|i: int|
            0 <= i < children.len() ==> is_well_formed(#[trigger] children[i]),
        UseTreeKindView::Glob => true,
    }
}

/// Whether every tree of the list is well formed.
pub open spec fn are_well_formed(trees: Seq<UseTreeView>) -> bool {
    forall|i: int| 0 <= i < trees.len() ==> is_well_formed(#[trigger] trees[i])
}

/// Whether a name that stands before `rest` ends there: nothing follows, or
/// a mark does.
pub open spec fn ends_name(rest: Seq<char>) -> bool {
    rest.len() == 0 || is_mark(rest[0])
}

/// Whether a path that stands before `rest` ends there: nothing follows, or
/// a mark does that is not `::` with a name behind it.
pub open spec fn ends_path(rest: Seq<char>) -> bool {
    rest.len() == 0 || (is_mark(rest[0]) && !(rest.len() >= 3 && rest[0] == ':' && rest[1] == ':'
        && !is_mark(rest[2])))
}

/// Whether a tree that stands before `rest` ends there: nothing follows, or
/// a comma or a closing brace does.
pub open spec fn ends_tree(rest: Seq<char>) -> bool {
    rest.len() == 0 || rest[0] == ',' || rest[0] == '}'
}

/// The marks as sequences of characters.
proof fn lemma_mark_texts()
    ensures
        "::"@ == seq![':', ':'],
        " as "@ == seq![' ', 'a', 's', ' '],
        "{"@ == seq!['{'],
        "}"@ == seq!['}'],
        ", "@ == seq![',', ' '],
        "*"@ == seq!['*'],
{
    reveal_strlit("::");
    reveal_strlit(" as ");
    reveal_strlit("{");
    reveal_strlit("}");
    reveal_strlit(", ");
    reveal_strlit("*");
    assert("::"@ =~= seq![':', ':']);
    assert(" as "@ =~= seq![' ', 'a', 's', ' ']);
    assert("{"@ =~= seq!['{']);
    assert("}"@ =~= seq!['}']);
    assert(", "@ =~= seq![',', ' ']);
    assert("*"@ =~= seq!['*']);
}

/// Texts that begin alike and are equal end alike.
proof fn lemma_cancel(front: Seq<char>, first: Seq<char>, second: Seq<char>)
    requires
        front + first == front + second,
    ensures
        first == second,
{
    assert(first =~= (front + first).skip(front.len() as int));
    assert(second =~= (front + second).skip(front.len() as int));
}

/// A name is read in one way: where two names, each with what follows it,
/// make the same text, they are the same name with the same rest.
proof fn lemma_name_reads_one_way(
    first: Seq<char>,
    first_rest: Seq<char>,
    second: Seq<char>,
    second_rest: Seq<char>,
)
    requires
        is_name(first),
        is_name(second),
        ends_name(first_rest),
        ends_name(second_rest),
        first + first_rest == second + second_rest,
    ensures
        first == second,
        first_rest == second_rest,
{
    let text = first + first_rest;
    assert(text.len() == first.len() + first_rest.len());
    assert(text.len() == second.len() + second_rest.len());
    if first.len() < second.len() {
        assert(text[first.len() as int] == first_rest[0]);
        assert((second + second_rest)[first.len() as int] == second[first.len() as int]);
        assert(false);
    }
    if second.len() < first.len() {
        assert((second + second_rest)[second.len() as int] == second_rest[0]);
        assert(text[second.len() as int] == first[second.len() as int]);
        assert(false);
    }
    assert(first =~= second) by {
        assert forall|i: int| 0 <= i < first.len() implies first[i] == second[i] by {
            assert(text[i] == first[i]);
            assert((second + second_rest)[i] == second[i]);
        }
    }
    lemma_cancel(first, first_rest, second_rest);
}

/// The text of a path of names begins with the first character of its first
/// name, which is no mark.
proof fn lemma_path_begins(segments: Seq<Seq<char>>)
    requires
        segments.len() > 0,
        are_names(segments),
    ensures
        render_path(segments).len() > 0,
        !is_mark(render_path(segments)[0]),
{
    assert(is_name(segments[0]));
    assert(!is_mark(segments[0][0]));
    if segments.len() > 1 {
        assert(render_path(segments) == segments[0] + "::"@ + joined(
            segments.drop_first(),
            "::"@,
        ));
        assert(render_path(segments)[0] == segments[0][0]);
    }
}

/// What follows the first name of a path that stands before `rest`.
spec fn after_first(segments: Seq<Seq<char>>, rest: Seq<char>) -> Seq<char> {
    if segments.len() <= 1 {
        rest
    } else {
        "::"@ + (render_path(segments.drop_first()) + rest)
    }
}

/// A path before a rest is its first name and what follows that.
proof fn lemma_path_parts(segments: Seq<Seq<char>>, rest: Seq<char>)
    requires
        segments.len() > 0,
        are_names(segments),
        ends_path(rest),
    ensures
        render_path(segments) + rest == segments[0] + after_first(segments, rest),
        ends_name(after_first(segments, rest)),
        segments.len() > 1 ==> are_names(segments.drop_first()),
        segments.len() > 1 ==> !ends_path(after_first(segments, rest)),
{
    lemma_mark_texts();
    if segments.len() > 1 {
        let others = segments.drop_first();
        assert forall|i: int| 0 <= i < others.len() implies is_name(#[trigger] others[i]) by {
            assert(others[i] == segments[i + 1]);
        }
        lemma_path_begins(others);
        let after = after_first(segments, rest);
        assert(render_path(segments) + rest =~= segments[0] + after);
        assert(after[0] == ':' && after[1] == ':');
        assert(after[2] == render_path(others)[0]);
    } else {
        assert(render_path(segments) + rest =~= segments[0] + rest);
    }
}

/// A path is read in one way: where two paths of names, each with what
/// follows it, make the same text, they are the same path with the same
/// rest.
proof fn lemma_path_reads_one_way(
    first: Seq<Seq<char>>,
    first_rest: Seq<char>,
    second: Seq<Seq<char>>,
    second_rest: Seq<char>,
)
    requires
        first.len() > 0,
        second.len() > 0,
        are_names(first),
        are_names(second),
        ends_path(first_rest),
        ends_path(second_rest),
        render_path(first) + first_rest == render_path(second) + second_rest,
    ensures
        first == second,
        first_rest == second_rest,
    decreases first.len(),
{
    lemma_mark_texts();
    lemma_path_parts(first, first_rest);
    lemma_path_parts(second, second_rest);
    let first_after = after_first(first, first_rest);
    let second_after = after_first(second, second_rest);
    assert(is_name(first[0]) && is_name(second[0]));
    lemma_name_reads_one_way(first[0], first_after, second[0], second_after);
    if first.len() == 1 && second.len() == 1 {
        assert(first =~= second);
    } else if first.len() == 1 || second.len() == 1 {
        assert(ends_path(first_after) != ends_path(second_after));
        assert(false);
    } else {
        lemma_cancel(
            "::"@,
            render_path(first.drop_first()) + first_rest,
            render_path(second.drop_first()) + second_rest,
        );
        lemma_path_reads_one_way(
            first.drop_first(),
            first_rest,
            second.drop_first(),
            second_rest,
        );
        assert(first =~= seq![first[0]] + first.drop_first());
        assert(second =~= seq![second[0]] + second.drop_first());
    }
}

/// What follows the opening brace of a group that stands before `rest`:
/// the children, the closing brace and the rest.
spec fn after_brace(children: Seq<UseTreeView>, rest: Seq<char>) -> Seq<char> {
    joined(render_trees(children), ", "@) + ("}"@ + rest)
}

/// What follows the prefix of a tree that stands before `rest`.
spec fn after_prefix(tree: UseTreeView, rest: Seq<char>) -> Seq<char> {
    match tree.kind {
        UseTreeKindView::Simple(None) => rest,
        UseTreeKindView::Simple(Some(alias)) => " as "@ + (alias + rest),
        UseTreeKindView::Nested(children) => "{"@ + after_brace(children, rest),
        UseTreeKindView::Glob => "*"@ + rest,
    }
}

/// What follows the path of a tree with a prefix that stands before `rest`.
spec fn after_path(tree: UseTreeView, rest: Seq<char>) -> Seq<char> {
    match tree.kind {
        UseTreeKindView::Simple(_) => after_prefix(tree, rest),
        _ => "::"@ + after_prefix(tree, rest),
    }
}

/// A tree before a rest is its path and what follows that, or, without a
/// prefix, what follows the prefix.
proof fn lemma_tree_parts(tree: UseTreeView, rest: Seq<char>)
    requires
        is_well_formed(tree),
        ends_tree(rest),
    ensures
        render_tree(tree) + rest == if tree.prefix.len() == 0 {
            after_prefix(tree, rest)
        } else {
            render_path(tree.prefix) + after_path(tree, rest)
        },
        tree.prefix.len() > 0 ==> ends_path(after_path(tree, rest)),
        render_tree(tree).len() > 0,
        (render_tree(tree) + rest)[0] == '{' || (render_tree(tree) + rest)[0] == '*' || !is_mark(
            (render_tree(tree) + rest)[0],
        ),
        tree.prefix.len() == 0 <==> is_mark((render_tree(tree) + rest)[0]),
{
    lemma_mark_texts();
    let path = render_path(tree.prefix);
    let text = render_tree(tree) + rest;
    if tree.prefix.len() > 0 {
        lemma_path_begins(tree.prefix);
        assert(render_root(tree.prefix) == path + "::"@);
    } else {
        assert(path =~= Seq::<char>::empty());
        assert(render_root(tree.prefix) =~= Seq::<char>::empty());
    }
    match tree.kind {
        UseTreeKindView::Simple(None) => {
            assert(text =~= path + after_path(tree, rest));
        },
        UseTreeKindView::Simple(Some(alias)) => {
            assert(text =~= path + after_path(tree, rest));
        },
        UseTreeKindView::Nested(children) => {
            if tree.prefix.len() > 0 {
                assert(text =~= path + after_path(tree, rest));
                assert(after_path(tree, rest)[2] == '{');
            } else {
                assert(text =~= after_prefix(tree, rest));
            }
        },
        UseTreeKindView::Glob => {
            if tree.prefix.len() > 0 {
                assert(text =~= path + after_path(tree, rest));
                assert(after_path(tree, rest)[2] == '*');
            } else {
                assert(text =~= after_prefix(tree, rest));
            }
        },
    }
    if tree.prefix.len() > 0 {
        assert(text[0] == path[0]);
    }
}

/// What follows the first child of a group, once the children stand before
/// the closing brace and `rest`.
spec fn after_child(children: Seq<UseTreeView>, rest: Seq<char>) -> Seq<char> {
    if children.len() <= 1 {
        "}"@ + rest
    } else {
        ", "@ + after_brace(children.drop_first(), rest)
    }
}

/// The children of a group before the closing brace are the first child and
/// what follows it.
proof fn lemma_children_parts(children: Seq<UseTreeView>, rest: Seq<char>)
    requires
        children.len() > 0,
        are_well_formed(children),
    ensures
        after_brace(children, rest) == render_tree(children[0]) + after_child(children, rest),
        ends_tree(after_child(children, rest)),
        are_well_formed(children.drop_first()),
        after_child(children, rest)[0] == '}' <==> children.len() == 1,
{
    lemma_mark_texts();
    let texts = render_trees(children);
    let others = children.drop_first();
    assert forall|i: int| 0 <= i < others.len() implies is_well_formed(#[trigger] others[i]) by {
        assert(others[i] == children[i + 1]);
    }
    assert(texts[0] == render_tree(children[0]));
    if children.len() > 1 {
        assert(texts.drop_first() =~= render_trees(others));
        assert(after_brace(children, rest) =~= render_tree(children[0]) + after_child(
            children,
            rest,
        ));
    } else {
        assert(after_brace(children, rest) =~= render_tree(children[0]) + after_child(
            children,
            rest,
        ));
    }
}

/// A tree is read in one way: where two well-formed trees, each with what
/// follows it, make the same text, they are the same tree with the same
/// rest.
proof fn lemma_tree_reads_one_way(
    first: UseTreeView,
    first_rest: Seq<char>,
    second: UseTreeView,
    second_rest: Seq<char>,
)
    requires
        is_well_formed(first),
        is_well_formed(second),
        ends_tree(first_rest),
        ends_tree(second_rest),
        render_tree(first) + first_rest == render_tree(second) + second_rest,
    ensures
        first == second,
        first_rest == second_rest,
    decreases first, 1int,
{
    lemma_mark_texts();
    lemma_tree_parts(first, first_rest);
    lemma_tree_parts(second, second_rest);
    if first.prefix.len() > 0 {
        lemma_path_reads_one_way(
            first.prefix,
            after_path(first, first_rest),
            second.prefix,
            after_path(second, second_rest),
        );
        if !(first.kind is Simple) {
            assert(!(second.kind is Simple));
            lemma_cancel(
                "::"@,
                after_prefix(first, first_rest),
                after_prefix(second, second_rest),
            );
        }
    } else {
        assert(first.prefix =~= second.prefix);
    }
    assert(after_prefix(first, first_rest) == after_prefix(second, second_rest));
    match first.kind {
        UseTreeKindView::Simple(None) => {
            assert(second.kind == UseTreeKindView::Simple(None::<Seq<char>>));
        },
        UseTreeKindView::Simple(Some(alias)) => {
            assert(second.kind is Simple && second.kind->Simple_0 is Some);
            let other = second.kind->Simple_0->0;
            lemma_cancel(" as "@, alias + first_rest, other + second_rest);
            lemma_name_reads_one_way(alias, first_rest, other, second_rest);
        },
        UseTreeKindView::Nested(children) => {
            assert(second.kind is Nested);
            let others = second.kind->Nested_0;
            lemma_cancel(
                "{"@,
                after_brace(children, first_rest),
                after_brace(others, second_rest),
            );
            lemma_children_read_one_way(children, first_rest, others, second_rest);
        },
        UseTreeKindView::Glob => {
            assert(second.kind is Glob);
            lemma_cancel("*"@, first_rest, second_rest);
        },
    }
}

/// The children of a group are read in one way: where two lists of
/// well-formed trees, each with the closing brace and what follows it, make
/// the same text, they are the same list with the same rest.
proof fn lemma_children_read_one_way(
    first: Seq<UseTreeView>,
    first_rest: Seq<char>,
    second: Seq<UseTreeView>,
    second_rest: Seq<char>,
)
    requires
        are_well_formed(first),
        are_well_formed(second),
        after_brace(first, first_rest) == after_brace(second, second_rest),
    ensures
        first == second,
        first_rest == second_rest,
    decreases first, 0int,
{
    lemma_mark_texts();
    if first.len() == 0 || second.len() == 0 {
        if first.len() > 0 {
            lemma_children_parts(first, first_rest);
            lemma_tree_parts(first[0], after_child(first, first_rest));
            assert(after_brace(second, second_rest) =~= "}"@ + second_rest);
            assert(false);
        }
        if second.len() > 0 {
            lemma_children_parts(second, second_rest);
            lemma_tree_parts(second[0], after_child(second, second_rest));
            assert(after_brace(first, first_rest) =~= "}"@ + first_rest);
            assert(false);
        }
        assert(first =~= second);
        assert(after_brace(first, first_rest) =~= "}"@ + first_rest);
        assert(after_brace(second, second_rest) =~= "}"@ + second_rest);
        lemma_cancel("}"@, first_rest, second_rest);
    } else {
        lemma_children_parts(first, first_rest);
        lemma_children_parts(second, second_rest);
        lemma_tree_reads_one_way(
            first[0],
            after_child(first, first_rest),
            second[0],
            after_child(second, second_rest),
        );
        if first.len() == 1 {
            assert(second.len() == 1);
            lemma_cancel("}"@, first_rest, second_rest);
            assert(first =~= second);
        } else {
            assert(second.len() > 1);
            lemma_cancel(
                ", "@,
                after_brace(first.drop_first(), first_rest),
                after_brace(second.drop_first(), second_rest),
            );
            axiom_seq_subrange_decreases(first, 1, first.len() as int);
            lemma_children_read_one_way(
                first.drop_first(),
                first_rest,
                second.drop_first(),
                second_rest,
            );
            assert(first =~= seq![first[0]] + first.drop_first());
            assert(second =~= seq![second[0]] + second.drop_first());
        }
    }
}

/// The text determines the tree: two well-formed trees that are written
/// alike are the same tree.
pub proof fn lemma_text_determines_tree(first: UseTreeView, second: UseTreeView)
    requires
        is_well_formed(first),
        is_well_formed(second),
        render_tree(first) == render_tree(second),
    ensures
        first == second,
{
    let nothing = Seq::<char>::empty();
    assert(render_tree(first) + nothing =~= render_tree(second) + nothing);
    lemma_tree_reads_one_way(first, nothing, second, nothing);
}

} // verus!
