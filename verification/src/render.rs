//! Writing `use` trees back as source text.

use vstd::prelude::*;
use vstd::string::StringExecFns;
use crate::import::{import_views, Import, ImportView};
use crate::tree::{Path, UseTree, UseTreeKind, UseTreeKindView, UseTreeView};

verus! {

/// The parts in order, with `sep` between each two of them.
pub open spec fn joined(parts: Seq<Seq<char>>, sep: Seq<char>) -> Seq<char>
    decreases parts.len(),
{
    if parts.len() == 0 {
        Seq::empty()
    } else if parts.len() == 1 {
        parts[0]
    } else {
        parts[0] + sep + joined(parts.drop_first(), sep)
    }
}

/// Joining one more part adds the separator and the part, or the part alone
/// where it is the first.
pub proof fn lemma_joined_push(parts: Seq<Seq<char>>, last: Seq<char>, sep: Seq<char>)
    ensures
        joined(parts.push(last), sep) == if parts.len() == 0 {
            last
        } else {
            joined(parts, sep) + sep + last
        },
    decreases parts.len(),
{
    let all = parts.push(last);
    if parts.len() == 0 {
        assert(all[0] == last);
    } else {
        let rest = parts.drop_first();
        assert(all.drop_first() =~= rest.push(last));
        lemma_joined_push(rest, last, sep);
        assert(joined(all, sep) =~= joined(parts, sep) + sep + last);
    }
}

/// The text of a path: its segments with `::` between them.
pub open spec fn render_path(segments: Seq<Seq<char>>) -> Seq<char> {
    joined(segments, "::"@)
}

/// The text that leads from a prefix to what follows it: nothing for a
/// prefix without segments, else the path and `::`.
pub open spec fn render_root(segments: Seq<Seq<char>>) -> Seq<char> {
    if segments.len() == 0 {
        Seq::empty()
    } else {
        render_path(segments) + "::"@
    }
}

/// The text of a `use` tree.
///
/// A simple tree is its path, followed by ` as ` and the alias where it has
/// one. A group is its children in their order, separated by `, ` and set
/// in braces; a wildcard is `*`. Both follow their prefix after `::`, or
/// stand alone where the prefix has no segment.
pub open spec fn render_tree(tree: UseTreeView) -> Seq<char>
    decreases tree,
{
    match tree.kind {
        UseTreeKindView::Simple(None) => render_path(tree.prefix),
        UseTreeKindView::Simple(Some(alias)) => render_path(tree.prefix) + " as "@ + alias,
        UseTreeKindView::Nested(children) => render_root(tree.prefix) + "{"@ + joined(
            render_trees(children),
            ", "@,
        ) + "}"@,
        UseTreeKindView::Glob => render_root(tree.prefix) + "*"@,
    }
}

/// The texts of the trees of a list, in its order.
pub open spec fn render_trees(trees: Seq<UseTreeView>) -> Seq<Seq<char>>
    decreases trees,
{
    Seq::new(
        trees.len(),
        |i: int|
            if 0 <= i < trees.len() {
                render_tree(trees[i])
            } else {
                Seq::empty()
            },
    )
}

/// The statement that declares a tree: `use`, the tree, and a semicolon.
pub open spec fn render_statement(tree: UseTreeView) -> Seq<char> {
    "use "@ + render_tree(tree) + ";"@
}

/// The statements of a list of declarations, in its order.
pub open spec fn render_statements(uses: Seq<ImportView>) -> Seq<Seq<char>> {
    Seq::new(uses.len(), |i: int| render_statement(uses[i].tree))
}

/// The text of a block: one statement per line, no line break at its end.
pub open spec fn render_block(uses: Seq<ImportView>) -> Seq<char> {
    joined(render_statements(uses), "\n"@)
}

/// Joined parts are at least as long as the first of them.
pub proof fn lemma_joined_len(parts: Seq<Seq<char>>, sep: Seq<char>)
    requires
        parts.len() > 0,
    ensures
        joined(parts, sep).len() >= parts[0].len(),
{
}

/// The text of a block with a declaration is not empty.
pub proof fn lemma_block_is_not_empty(uses: Seq<ImportView>)
    requires
        uses.len() > 0,
    ensures
        render_block(uses).len() > 0,
{
    reveal_strlit("use ");
    lemma_joined_len(render_statements(uses), "\n"@);
}

impl Path {
    /// Writes the path as source text.
    pub fn to_code(&self) -> (code: String)
        ensures
            code@ == render_path(self@),
    {
        let mut code = String::new();
        let n = self.segments.len();
        let mut i: usize = 0;
        while i < n
            invariant
                n == self.segments@.len(),
                i <= n,
                code@ == joined(self@.take(i as int), "::"@),
            decreases n - i,
        {
            if i > 0 {
                code.append("::");
            }
            code.append(self.segments[i].as_str());
            proof {
                lemma_joined_push(self@.take(i as int), self@[i as int], "::"@);
                assert(self@.take(i + 1) =~= self@.take(i as int).push(self@[i as int]));
            }
            i += 1;
        }
        proof {
            assert(self@.take(n as int) =~= self@);
        }
        code
    }
}

impl UseTree {
    /// Writes the tree as source text.
    #[verifier::loop_isolation(false)]
    pub fn to_code(&self) -> (code: String)
        ensures
            code@ == render_tree(self@),
        decreases self,
    {
        let mut code = self.prefix.to_code();
        match &self.kind {
            UseTreeKind::Simple(None) => {},
            UseTreeKind::Simple(Some(alias)) => {
                code.append(" as ");
                code.append(alias.as_str());
            },
            UseTreeKind::Nested(children) => {
                if self.prefix.segments.len() > 0 {
                    code.append("::");
                }
                code.append("{");
                let ghost head = code@;
                let ghost parts = render_trees(self@.kind->Nested_0);
                let n = children.len();
                assert(parts.len() == n);
                assert forall|k: int| 0 <= k < n implies parts[k] == render_tree(
                    children@[k]@,
                ) by {
                    assert((self@.kind->Nested_0)[k] == children@[k]@);
                }
                let mut i: usize = 0;
                while i < n
                    invariant
                        i <= n,
                        parts.len() == n,
                        code@ == head + joined(parts.take(i as int), ", "@),
                    decreases n - i,
                {
                    if i > 0 {
                        code.append(", ");
                    }
                    let child = children[i].to_code();
                    code.append(child.as_str());
                    proof {
                        lemma_joined_push(parts.take(i as int), parts[i as int], ", "@);
                        assert(parts.take(i + 1) =~= parts.take(i as int).push(parts[i as int]));
                    }
                    i += 1;
                }
                proof {
                    assert(parts.take(n as int) =~= parts);
                }
                code.append("}");
            },
            UseTreeKind::Glob => {
                if self.prefix.segments.len() > 0 {
                    code.append("::");
                }
                code.append("*");
            },
        }
        code
    }
}

/// Writes a block of declarations: one `use` statement per line, in the
/// order given, without a line break after the last.
pub fn block_to_code(uses: &[&Import]) -> (code: String)
    ensures
        code@ == render_block(import_views(uses@)),
{
    let ghost parts = render_statements(import_views(uses@));
    let mut code = String::new();
    let n = uses.len();
    let mut i: usize = 0;
    while i < n
        invariant
            n == uses@.len(),
            parts == render_statements(import_views(uses@)),
            i <= n,
            code@ == joined(parts.take(i as int), "\n"@),
        decreases n - i,
    {
        if i > 0 {
            code.append("\n");
        }
        let tree = uses[i].tree.to_code();
        code.append("use ");
        code.append(tree.as_str());
        code.append(";");
        proof {
            lemma_joined_push(parts.take(i as int), parts[i as int], "\n"@);
            assert(parts.take(i + 1) =~= parts.take(i as int).push(parts[i as int]));
        }
        i += 1;
    }
    proof {
        assert(parts.take(n as int) =~= parts);
    }
    code
}

} // verus!
