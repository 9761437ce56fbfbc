//! The items of a module body, and the `use` declarations among them.

use vstd::prelude::*;
use crate::category::Category;
use crate::span::{LineRange, LineRangeView, Span, SpanView};
use crate::tree::{UseTree, UseTreeView};

verus! {

/// One `use` declaration: where it stands, the lines it touches, and its tree.
#[derive(Debug, PartialEq, Eq)]
pub struct Import {
    /// Where the declaration stands in the source.
    pub span: Span,
    /// The lines that the declaration touches.
    pub lines: LineRange,
    /// What the declaration brings into scope.
    pub tree: UseTree,
}

/// One item of a module body. Of items that are not `use` declarations
/// nothing but their presence is known.
#[derive(Debug, PartialEq, Eq)]
pub enum Item {
    Use(Import),
    Other,
}

/// A `use` declaration as mathematical values.
pub struct ImportView {
    pub span: SpanView,
    pub lines: LineRangeView,
    pub tree: UseTreeView,
}

/// An item as mathematical values.
pub enum ItemView {
    Use(ImportView),
    Other,
}

impl View for Import {
    type V = ImportView;

    open spec fn view(&self) -> ImportView {
        ImportView { span: self.span@, lines: self.lines@, tree: self.tree@ }
    }
}

impl View for Item {
    type V = ItemView;

    open spec fn view(&self) -> ItemView {
        match self {
            Item::Use(import) => ItemView::Use(import@),
            Item::Other => ItemView::Other,
        }
    }
}

impl Clone for Import {
    fn clone(&self) -> (copy: Import)
        ensures
            copy@ == self@,
    {
        Import { span: self.span, lines: self.lines, tree: self.tree.clone() }
    }
}

impl Clone for Item {
    fn clone(&self) -> (copy: Item)
        ensures
            copy@ == self@,
    {
        match self {
            Item::Use(import) => Item::Use(import.clone()),
            Item::Other => Item::Other,
        }
    }
}

impl ImportView {
    /// The tier of the declaration, if its prefix has a first segment.
    pub open spec fn category(self) -> Option<Category> {
        Category::of_prefix(self.tree.prefix)
    }
}

/// The views of a list of borrowed declarations.
pub open spec fn import_views(uses: Seq<&Import>) -> Seq<ImportView> {
    Seq::new(uses.len(), |i: int| uses[i]@)
}

/// The views of a list of items.
pub open spec fn item_views(items: Seq<Item>) -> Seq<ItemView> {
    Seq::new(items.len(), |i: int| items[i]@)
}

/// Whether every declaration of the list has a tier.
pub open spec fn all_categorized(uses: Seq<ImportView>) -> bool {
    forall|i: int| 0 <= i < uses.len() ==> (#[trigger] uses[i]).category() is Some
}

} // verus!
