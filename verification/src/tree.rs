//! The shape of a `use` declaration.

use vstd::prelude::*;

verus! {

/// A path: its segments in order, without the `::` between them.
#[derive(Debug, PartialEq, Eq)]
pub struct Path {
    /// The names between the `::`, first to last.
    pub segments: Vec<String>,
}

/// What follows the prefix of a `use` tree.
#[derive(Debug, PartialEq, Eq)]
pub enum UseTreeKind {
    /// A single name, with the alias it is renamed to, if any.
    Simple(Option<String>),
    /// A group in braces.
    Nested(Vec<UseTree>),
    /// A wildcard.
    Glob,
}

/// One `use` tree: a prefix path and what follows it.
#[derive(Debug, PartialEq, Eq)]
pub struct UseTree {
    /// The path that leads to what is imported; it may have no segment.
    pub prefix: Path,
    /// What is imported from there.
    pub kind: UseTreeKind,
}

/// What follows the prefix of a `use` tree, as mathematical values.
pub enum UseTreeKindView {
    Simple(Option<Seq<char>>),
    Nested(Seq<UseTreeView>),
    Glob,
}

/// A `use` tree as mathematical values.
pub struct UseTreeView {
    pub prefix: Seq<Seq<char>>,
    pub kind: UseTreeKindView,
}

impl View for Path {
    type V = Seq<Seq<char>>;

    open spec fn view(&self) -> Seq<Seq<char>> {
        Seq::new(self.segments@.len(), |i: int| self.segments@[i]@)
    }
}

/// The view of a tree: its segments and aliases as sequences of characters,
/// its children as their views.
pub open spec fn tree_view(tree: UseTree) -> UseTreeView
    decreases tree,
{
    UseTreeView { prefix: tree.prefix@, kind: kind_view(tree.kind) }
}

/// The view of what follows a prefix: an alias as a sequence of characters,
/// children as their views.
pub open spec fn kind_view(kind: UseTreeKind) -> UseTreeKindView
    decreases kind,
{
    match kind {
        UseTreeKind::Simple(None) => UseTreeKindView::Simple(None),
        UseTreeKind::Simple(Some(alias)) => UseTreeKindView::Simple(Some(alias@)),
        UseTreeKind::Nested(children) => UseTreeKindView::Nested(tree_views(children@)),
        UseTreeKind::Glob => UseTreeKindView::Glob,
    }
}

/// The views of the trees of a list, in its order.
pub open spec fn tree_views(trees: Seq<UseTree>) -> Seq<UseTreeView>
    decreases trees,
{
    Seq::new(
        trees.len(),
        |i: int|
            if 0 <= i < trees.len() {
                tree_view(trees[i])
            } else {
                arbitrary()
            },
    )
}

impl View for UseTreeKind {
    type V = UseTreeKindView;

    open spec fn view(&self) -> UseTreeKindView {
        kind_view(*self)
    }
}

impl View for UseTree {
    type V = UseTreeView;

    open spec fn view(&self) -> UseTreeView {
        tree_view(*self)
    }
}

/// Copies a list of names.
fn clone_names(names: &Vec<String>) -> (copy: Vec<String>)
    ensures
        copy@.len() == names@.len(),
        forall|i: int| 0 <= i < names@.len() ==> copy@[i]@ == names@[i]@,
{
    let mut copy: Vec<String> = Vec::new();
    let mut i: usize = 0;
    while i < names.len()
        invariant
            i <= names@.len(),
            copy@.len() == i,
            forall|k: int| 0 <= k < i ==> copy@[k]@ == names@[k]@,
        decreases names@.len() - i,
    {
        copy.push(names[i].clone());
        i += 1;
    }
    copy
}

/// Copies a tree with all that hangs from it.
fn clone_tree(tree: &UseTree) -> (copy: UseTree)
    ensures
        copy@ == tree@,
    decreases tree, 0int,
{
    UseTree { prefix: tree.prefix.clone(), kind: clone_kind(&tree.kind) }
}

/// Copies what follows a prefix.
fn clone_kind(kind: &UseTreeKind) -> (copy: UseTreeKind)
    ensures
        copy@ == kind@,
    decreases kind, 1int,
{
    match kind {
        UseTreeKind::Simple(None) => UseTreeKind::Simple(None),
        UseTreeKind::Simple(Some(alias)) => UseTreeKind::Simple(Some(alias.clone())),
        UseTreeKind::Nested(children) => UseTreeKind::Nested(clone_trees(children)),
        UseTreeKind::Glob => UseTreeKind::Glob,
    }
}

/// Copies a list of trees.
fn clone_trees(trees: &Vec<UseTree>) -> (copies: Vec<UseTree>)
    ensures
        tree_views(copies@) == tree_views(trees@),
    decreases trees, 0int,
{
    let mut copies: Vec<UseTree> = Vec::new();
    let mut i: usize = 0;
    while i < trees.len()
        invariant
            i <= trees@.len(),
            copies@.len() == i,
            forall|k: int| 0 <= k < i ==> copies@[k]@ == trees@[k]@,
        decreases trees@.len() - i,
    {
        copies.push(clone_tree(&trees[i]));
        i += 1;
    }
    assert(tree_views(copies@) =~= tree_views(trees@));
    copies
}

impl Clone for Path {
    fn clone(&self) -> (copy: Path)
        ensures
            copy@ == self@,
    {
        let copy = Path { segments: clone_names(&self.segments) };
        assert(copy@ =~= self@);
        copy
    }
}

impl Clone for UseTreeKind {
    fn clone(&self) -> (copy: UseTreeKind)
        ensures
            copy@ == self@,
    {
        clone_kind(self)
    }
}

impl Clone for UseTree {
    fn clone(&self) -> (copy: UseTree)
        ensures
            copy@ == self@,
    {
        clone_tree(self)
    }
}

} // verus!
