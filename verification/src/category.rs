//! The three tiers into which imports are sorted.

use vstd::prelude::*;
use vstd::string::StringExecFns;
use crate::tree::UseTree;

verus! {

/// The tier of an import, decided by the first segment of its path. The
/// tiers are ordered as the layout has them: `Std`, `Other`, `SuperOrCrate`.
#[derive(Copy, Clone, PartialEq, Eq, PartialOrd, Ord, Debug, Structural)]
pub enum Category {
    /// Rooted at `std`.
    Std,
    /// Rooted at anything else.
    Other,
    /// Rooted at `crate` or `super`.
    SuperOrCrate,
}

impl Category {
    /// The place of the tier in the canonical layout.
    pub open spec fn rank(self) -> int {
        match self {
            Category::Std => 0,
            Category::Other => 1,
            Category::SuperOrCrate => 2,
        }
    }

    /// The tier that a root segment names.
    pub open spec fn of_root(root: Seq<char>) -> Category {
        if root == "super"@ || root == "crate"@ {
            Category::SuperOrCrate
        } else if root == "std"@ {
            Category::Std
        } else {
            Category::Other
        }
    }

    /// The tier of an import with the given path segments, if it has one.
    pub open spec fn of_prefix(prefix: Seq<Seq<char>>) -> Option<Category> {
        if prefix.len() == 0 {
            None
        } else {
            Some(Category::of_root(prefix[0]))
        }
    }
}

/// The place of a tier in the canonical layout: 0 for `Std`, 1 for `Other`,
/// 2 for `SuperOrCrate`.
pub fn category_order(category: Category) -> (order: usize)
    ensures
        order == category.rank(),
{
    match category {
        Category::Std => 0,
        Category::Other => 1,
        Category::SuperOrCrate => 2,
    }
}

/// The tier of an import, read off the first segment of its prefix. An
/// import without a prefix, such as a bare group in braces, has none.
pub fn find_category(use_tree: &UseTree) -> (category: Option<Category>)
    ensures
        category == Category::of_prefix(use_tree@.prefix),
{
    if use_tree.prefix.segments.len() == 0 {
        None
    } else {
        let root: &String = &use_tree.prefix.segments[0];
        if *root == String::from_str("super") || *root == String::from_str("crate") {
            Some(Category::SuperOrCrate)
        } else if *root == String::from_str("std") {
            Some(Category::Std)
        } else {
            Some(Category::Other)
        }
    }
}

} // verus!
