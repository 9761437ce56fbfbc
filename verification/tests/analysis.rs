use use_order::category::{category_order, find_category, Category};
use use_order::check::check_use_trees;
use use_order::fix::{check_use_order, find_use_block_span, suggest_use_blocks, Applicability};
use use_order::groups::make_groups;
use use_order::import::{Import, Item};
use use_order::region::{collect_use_trees, sort_by_position};
use use_order::span::{LineRange, Span};
use use_order::tree::{Path, UseTree, UseTreeKind};

fn path(segments: &[&str]) -> Path {
    Path { segments: segments.iter().map(|s| s.to_string()).collect() }
}

fn simple(segments: &[&str]) -> UseTree {
    UseTree { prefix: path(segments), kind: UseTreeKind::Simple(None) }
}

fn glob(segments: &[&str]) -> UseTree {
    UseTree { prefix: path(segments), kind: UseTreeKind::Glob }
}

fn nested(segments: &[&str], children: Vec<UseTree>) -> UseTree {
    UseTree { prefix: path(segments), kind: UseTreeKind::Nested(children) }
}

/// A declaration on lines `first..=last`, twenty bytes to a line.
fn import_on(first: usize, last: usize, tree: UseTree) -> Import {
    Import {
        span: Span { file: 0, lo: 20 * first as u32, hi: 20 * last as u32 + 15 },
        lines: LineRange { first, last },
        tree,
    }
}

fn module(imports: Vec<Import>) -> Vec<Item> {
    imports.into_iter().map(Item::Use).collect()
}

fn mixed_trees() -> Vec<UseTree> {
    vec![
        simple(&["base", "hoge"]),
        nested(&["base", "fuga"], vec![simple(&["a"]), simple(&["b"])]),
        glob(&["base", "test"]),
        simple(&["std", "path"]),
        simple(&["crate", "x"]),
        simple(&["crate", "x", "y"]),
        simple(&["crate", "z"]),
    ]
}

const REGROUPED: &str = "use std::path;\n\nuse base::hoge;\nuse base::fuga::{a, b};\nuse base::test::*;\n\nuse crate::x;\nuse crate::x::y;\nuse crate::z;\n";

#[test]
fn categories_follow_the_root_segment() {
    assert_eq!(find_category(&simple(&["std", "path"])), Some(Category::Std));
    assert_eq!(find_category(&simple(&["crate", "x"])), Some(Category::SuperOrCrate));
    assert_eq!(find_category(&simple(&["super", "x"])), Some(Category::SuperOrCrate));
    assert_eq!(find_category(&simple(&["base", "hoge"])), Some(Category::Other));
    assert_eq!(find_category(&simple(&["core", "mem"])), Some(Category::Other));
    assert_eq!(find_category(&glob(&["std"])), Some(Category::Std));
    assert_eq!(find_category(&simple(&["stdx"])), Some(Category::Other));
    assert_eq!(find_category(&simple(&["Std"])), Some(Category::Other));
    assert_eq!(find_category(&simple(&["", "std"])), Some(Category::Other));
}

#[test]
fn no_prefix_means_no_category() {
    assert_eq!(find_category(&nested(&[], vec![glob(&["ext"]), simple(&["std", "fs"])])), None);
    assert_eq!(find_category(&glob(&[])), None);
    assert_eq!(find_category(&simple(&[])), None);
}

#[test]
fn category_order_is_std_other_crate() {
    assert_eq!(category_order(Category::Std), 0);
    assert_eq!(category_order(Category::Other), 1);
    assert_eq!(category_order(Category::SuperOrCrate), 2);
}

#[test]
fn std_then_crate_parted_by_an_empty_line_is_accepted() {
    let trees = vec![
        simple(&["std", "path"]),
        simple(&["crate", "x"]),
        simple(&["crate", "x", "y"]),
        simple(&["crate", "z"]),
    ];
    let tiers: Vec<Option<Category>> = trees.iter().map(find_category).collect();
    assert_eq!(
        tiers,
        vec![
            Some(Category::Std),
            Some(Category::SuperOrCrate),
            Some(Category::SuperOrCrate),
            Some(Category::SuperOrCrate),
        ]
    );
    // With the empty line that parts the two tiers, nothing is suggested.
    let lines = [0usize, 2, 3, 4];
    let items = module(
        trees.iter().zip(lines).map(|(tree, line)| import_on(line, line, tree.clone())).collect(),
    );
    assert_eq!(check_use_order(&items), None);
}

#[test]
fn std_then_crate_on_adjacent_lines_is_reported() {
    // Two tiers on lines that follow one another are not parted: the pair
    // `std::path`, `crate::x` is reported although the tiers are in order.
    let items = module(vec![
        import_on(0, 0, simple(&["std", "path"])),
        import_on(1, 1, simple(&["crate", "x"])),
        import_on(2, 2, simple(&["crate", "x", "y"])),
        import_on(3, 3, simple(&["crate", "z"])),
    ]);
    let suggestion = check_use_order(&items).expect("a suggestion");
    assert_eq!(
        suggestion.replacement,
        "use std::path;\n\nuse crate::x;\nuse crate::x::y;\nuse crate::z;\n"
    );
}

#[test]
fn other_before_std_is_regrouped_into_three_blocks() {
    let items = module(
        mixed_trees()
            .into_iter()
            .enumerate()
            .map(|(line, tree)| import_on(line, line, tree))
            .collect(),
    );
    let suggestion = check_use_order(&items).expect("a suggestion");
    assert_eq!(suggestion.replacement, REGROUPED);
    assert_eq!(suggestion.span, Span { file: 0, lo: 0, hi: 135 });
    assert_eq!(suggestion.message, "put a block of imports here");
    assert_eq!(suggestion.help, "try");
    assert_eq!(suggestion.applicability, Applicability::MachineApplicable);
}

#[test]
fn regrouping_with_an_empty_line_after_the_first_import() {
    let lines = [20usize, 22, 23, 24, 25, 26, 27];
    let items = module(
        mixed_trees()
            .into_iter()
            .zip(lines)
            .map(|(tree, line)| import_on(line, line, tree))
            .collect(),
    );
    let suggestion = check_use_order(&items).expect("a suggestion");
    assert_eq!(suggestion.replacement, REGROUPED);
    assert_eq!(suggestion.span, Span { file: 0, lo: 400, hi: 555 });
}

#[test]
fn a_bare_group_ends_the_analysis() {
    let items = module(vec![
        import_on(0, 0, glob(&["crate", "myself"])),
        import_on(1, 4, nested(&["ext", "deep"], vec![simple(&["a"]), simple(&["b"])])),
        import_on(5, 5, simple(&["std", "io"])),
        import_on(6, 6, nested(&[], vec![glob(&["ext"]), simple(&["std", "fs"])])),
    ]);
    assert_eq!(check_use_order(&items), None);
    // Without the bare group the other three are out of order.
    let three: Vec<Item> = items[..3].to_vec();
    let suggestion = check_use_order(&three).expect("a suggestion");
    assert_eq!(
        suggestion.replacement,
        "use std::io;\n\nuse ext::deep::{a, b};\n\nuse crate::myself::*;\n"
    );
}

#[test]
fn bail_out_wherever_the_bare_import_stands() {
    for place in 0..4 {
        let mut imports = vec![
            import_on(0, 0, simple(&["crate", "a"])),
            import_on(1, 1, simple(&["std", "b"])),
            import_on(3, 3, simple(&["other", "c"])),
        ];
        imports.insert(place, import_on(10, 10, glob(&[])));
        let uses: Vec<&Import> = imports.iter().collect();
        assert!(!check_use_trees(&uses));
        assert_eq!(check_use_order(&module(imports)), None);
    }
}

#[test]
fn empty_and_single_modules_need_nothing() {
    assert_eq!(check_use_order(&[]), None);
    assert_eq!(check_use_order(&[Item::Other, Item::Other]), None);
    assert_eq!(check_use_order(&module(vec![import_on(3, 3, simple(&["crate", "a"]))])), None);
    assert_eq!(check_use_order(&module(vec![import_on(3, 3, glob(&[]))])), None);
    assert!(!check_use_trees(&[]));
}

#[test]
fn same_tier_on_consecutive_lines_is_accepted() {
    let a = import_on(4, 4, simple(&["std", "a"]));
    let b = import_on(5, 5, simple(&["std", "b"]));
    assert!(!check_use_trees(&[&a, &b]));
    assert_eq!(check_use_order(&module(vec![a, b])), None);
}

#[test]
fn same_tier_with_a_blank_line_is_reported() {
    let a = import_on(4, 4, simple(&["std", "a"]));
    let b = import_on(6, 6, simple(&["std", "b"]));
    assert!(check_use_trees(&[&a, &b]));
    let suggestion = check_use_order(&module(vec![a, b])).expect("a suggestion");
    assert_eq!(suggestion.replacement, "use std::a;\nuse std::b;\n");
}

#[test]
fn a_multi_line_import_counts_by_its_last_line() {
    let a = import_on(0, 3, nested(&["std"], vec![simple(&["a"]), simple(&["b"])]));
    let next = import_on(4, 4, simple(&["std", "c"]));
    let late = import_on(5, 5, simple(&["std", "c"]));
    assert!(!check_use_trees(&[&a, &next]));
    assert!(check_use_trees(&[&a, &late]));
}

#[test]
fn tiers_out_of_order_are_reported_even_when_parted() {
    let a = import_on(0, 0, simple(&["crate", "a"]));
    let b = import_on(2, 2, simple(&["std", "b"]));
    assert!(check_use_trees(&[&a, &b]));
    let c = import_on(0, 0, simple(&["other", "a"]));
    let d = import_on(2, 2, simple(&["std", "b"]));
    assert!(check_use_trees(&[&c, &d]));
    let e = import_on(0, 0, simple(&["crate", "a"]));
    let f = import_on(2, 2, simple(&["other", "b"]));
    assert!(check_use_trees(&[&e, &f]));
}

#[test]
fn tiers_in_order_and_parted_are_accepted() {
    let a = import_on(0, 0, simple(&["std", "a"]));
    let b = import_on(2, 2, simple(&["other", "b"]));
    let c = import_on(4, 4, simple(&["super", "c"]));
    assert!(!check_use_trees(&[&a, &b, &c]));
    assert!(!check_use_trees(&[&a, &c]));
    assert!(!check_use_trees(&[&b, &c]));
}

#[test]
fn groups_keep_the_order_of_the_list() {
    let imports: Vec<Import> = mixed_trees()
        .into_iter()
        .enumerate()
        .map(|(line, tree)| import_on(line, line, tree))
        .collect();
    let uses: Vec<&Import> = imports.iter().collect();
    let (std_uses, other_uses, crate_uses) = make_groups(&uses);
    assert_eq!(std_uses, vec![&imports[3]]);
    assert_eq!(other_uses, vec![&imports[0], &imports[1], &imports[2]]);
    assert_eq!(crate_uses, vec![&imports[4], &imports[5], &imports[6]]);
}

#[test]
fn groups_of_nothing_are_empty() {
    let (std_uses, other_uses, crate_uses) = make_groups(&[]);
    assert!(std_uses.is_empty() && other_uses.is_empty() && crate_uses.is_empty());
}

#[test]
fn an_empty_tier_leaves_nothing_in_the_text() {
    let other = import_on(0, 0, simple(&["base", "a"]));
    let krate = import_on(1, 1, simple(&["crate", "b"]));
    let span = Span { file: 7, lo: 1, hi: 2 };
    let suggestion = suggest_use_blocks(span, &[], &[&other], &[&krate]);
    assert_eq!(suggestion.replacement, "use base::a;\n\nuse crate::b;\n");
    assert_eq!(suggestion.span, span);
    let std_path = import_on(0, 0, simple(&["std", "path"]));
    let crate_x = import_on(1, 1, simple(&["crate", "x"]));
    let outer = suggest_use_blocks(span, &[&std_path], &[], &[&crate_x]);
    assert_eq!(outer.replacement, "use std::path;\n\nuse crate::x;\n");
    let first_two = suggest_use_blocks(span, &[&std_path], &[&other], &[]);
    assert_eq!(first_two.replacement, "use std::path;\n\nuse base::a;\n");
    let each = [&std_path, &other, &krate];
    for (tier, import) in each.into_iter().enumerate() {
        let mut blocks: [Vec<&Import>; 3] = [vec![], vec![], vec![]];
        blocks[tier].push(import);
        let alone = suggest_use_blocks(span, &blocks[0], &blocks[1], &blocks[2]);
        assert_eq!(alone.replacement, format!("use {};\n", import.tree.to_code()));
    }
    let nothing = suggest_use_blocks(span, &[], &[], &[]);
    assert_eq!(nothing.replacement, "\n");
}

#[test]
fn the_fix_is_accepted_when_read_back() {
    let trees = mixed_trees();
    let items = module(
        trees.iter().cloned().enumerate().map(|(line, tree)| import_on(line, line, tree)).collect(),
    );
    let suggestion = check_use_order(&items).expect("a suggestion");
    // The statements of the text, in its order, each on the line on which
    // the text has it.
    let in_text_order = [3usize, 0, 1, 2, 4, 5, 6];
    let mut fixed = Vec::new();
    let mut next = 0;
    for (line, text) in suggestion.replacement.lines().enumerate() {
        if text.starts_with("use ") {
            let tree = trees[in_text_order[next]].clone();
            assert_eq!(text, format!("use {};", tree.to_code()));
            fixed.push(import_on(30 + line, 30 + line, tree));
            next += 1;
        }
    }
    assert_eq!(fixed.len(), 7);
    assert_eq!(check_use_order(&module(fixed)), None);
}

#[test]
fn the_fix_with_empty_tiers_is_accepted_when_read_back() {
    let a = simple(&["crate", "a"]);
    let b = simple(&["std", "b"]);
    let items = module(vec![import_on(0, 0, a.clone()), import_on(1, 1, b.clone())]);
    let suggestion = check_use_order(&items).expect("a suggestion");
    assert_eq!(suggestion.replacement, "use std::b;\n\nuse crate::a;\n");
    let fixed = module(vec![import_on(0, 0, b), import_on(2, 2, a)]);
    assert_eq!(check_use_order(&fixed), None);
}

#[test]
fn imports_are_taken_in_source_order() {
    // The items list the later declaration first.
    let later = import_on(2, 2, simple(&["crate", "a"]));
    let earlier = import_on(0, 0, simple(&["std", "b"]));
    let items = vec![Item::Use(later.clone()), Item::Other, Item::Use(earlier.clone())];
    assert_eq!(collect_use_trees(&items), vec![&earlier, &later]);
    assert_eq!(check_use_order(&items), None);
    let swapped = vec![
        Item::Use(import_on(0, 0, simple(&["crate", "a"]))),
        Item::Use(import_on(2, 2, simple(&["std", "b"]))),
    ];
    assert!(check_use_order(&swapped).is_some());
}

#[test]
fn sorting_goes_by_file_then_start_and_keeps_ties() {
    let at = |file: u32, lo: u32, name: &str| Import {
        span: Span { file, lo, hi: lo + 1 },
        lines: LineRange { first: 0, last: 0 },
        tree: simple(&[name]),
    };
    let imports =
        vec![at(1, 5, "a"), at(0, 9, "b"), at(1, 5, "c"), at(0, 2, "d"), at(1, 0, "e"), at(0, 9, "f")];
    let uses: Vec<&Import> = imports.iter().collect();
    let sorted = sort_by_position(&uses);
    let names: Vec<String> = sorted.iter().map(|import| import.tree.to_code()).collect();
    assert_eq!(names, vec!["d", "b", "f", "e", "a", "c"]);
}

#[test]
fn sorting_ignores_where_a_span_ends() {
    let a = Import {
        span: Span { file: 0, lo: 4, hi: 90 },
        lines: LineRange { first: 0, last: 0 },
        tree: simple(&["a"]),
    };
    let b = Import {
        span: Span { file: 0, lo: 4, hi: 10 },
        lines: LineRange { first: 0, last: 0 },
        tree: simple(&["b"]),
    };
    assert_eq!(sort_by_position(&[&a, &b]), vec![&a, &b]);
    assert_eq!(sort_by_position(&[&b, &a]), vec![&b, &a]);
}

#[test]
fn block_span_reaches_over_all_imports() {
    let items = vec![
        Item::Other,
        Item::Use(Import {
            span: Span { file: 3, lo: 40, hi: 50 },
            lines: LineRange { first: 2, last: 2 },
            tree: simple(&["a"]),
        }),
        Item::Other,
        Item::Use(Import {
            span: Span { file: 3, lo: 10, hi: 45 },
            lines: LineRange { first: 0, last: 1 },
            tree: simple(&["b"]),
        }),
        Item::Use(Import {
            span: Span { file: 4, lo: 20, hi: 70 },
            lines: LineRange { first: 1, last: 3 },
            tree: simple(&["c"]),
        }),
    ];
    assert_eq!(find_use_block_span(&items), Some(Span { file: 3, lo: 10, hi: 70 }));
    assert_eq!(find_use_block_span(&[Item::Other]), None);
    assert_eq!(find_use_block_span(&[]), None);
}

#[test]
fn items_between_imports_do_not_part_them() {
    let items = vec![
        Item::Use(import_on(0, 0, simple(&["std", "a"]))),
        Item::Other,
        Item::Use(import_on(1, 1, simple(&["std", "b"]))),
    ];
    assert_eq!(check_use_order(&items), None);
}

#[test]
fn tiers_are_ordered_as_the_layout_has_them() {
    assert!(Category::Std < Category::Other);
    assert!(Category::Other < Category::SuperOrCrate);
    let mut tiers = vec![Category::SuperOrCrate, Category::Std, Category::Other];
    tiers.sort();
    let orders: Vec<usize> = tiers.into_iter().map(category_order).collect();
    assert_eq!(orders, vec![0, 1, 2]);
}

#[test]
fn statements_stand_on_the_lines_of_their_blocks() {
    let items = module(
        mixed_trees().into_iter().enumerate().map(|(line, tree)| import_on(line, line, tree)).collect(),
    );
    let text = check_use_order(&items).expect("a suggestion").replacement;
    let statements = [
        "use std::path;",
        "use base::hoge;",
        "use base::fuga::{a, b};",
        "use base::test::*;",
        "use crate::x;",
        "use crate::x::y;",
        "use crate::z;",
    ];
    let lines: Vec<usize> = statements
        .iter()
        .map(|statement| {
            let at = text.find(statement).expect("the statement");
            text[..at].matches('\n').count()
        })
        .collect();
    assert_eq!(lines, vec![0, 2, 3, 4, 6, 7, 8]);
    // One tier only: its block is the whole text.
    let alone = module(vec![
        import_on(0, 0, simple(&["crate", "a"])),
        import_on(2, 2, simple(&["crate", "b"])),
    ]);
    let text = check_use_order(&alone).expect("a suggestion").replacement;
    assert_eq!(text, "use crate::a;\nuse crate::b;\n");
    assert_eq!(text[..text.find("use crate::b;").unwrap()].matches('\n').count(), 1);
}

#[test]
fn copies_are_equal_to_what_they_copy() {
    let tree = nested(&["a", "b"], vec![simple(&["c"]), glob(&[]), nested(&[], vec![simple(&["d"])])]);
    assert_eq!(tree.clone(), tree);
    assert_eq!(tree.kind.clone(), tree.kind);
    assert_eq!(tree.prefix.clone(), tree.prefix);
    let import = import_on(3, 4, tree);
    assert_eq!(import.clone(), import);
    let item = Item::Use(import);
    assert_eq!(item.clone(), item);
    assert_eq!(Item::Other.clone(), Item::Other);
    let suggestion = suggest_use_blocks(Span { file: 1, lo: 2, hi: 3 }, &[], &[], &[]);
    assert_eq!(suggestion.clone(), suggestion);
}
