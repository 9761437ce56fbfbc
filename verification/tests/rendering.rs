use use_order::import::Import;
use use_order::render::block_to_code;
use use_order::span::{LineRange, Span};
use use_order::tree::{Path, UseTree, UseTreeKind};

fn segments(names: &[&str]) -> Path {
    Path { segments: names.iter().map(|s| s.to_string()).collect() }
}

fn leaf(names: &[&str]) -> UseTree {
    UseTree { prefix: segments(names), kind: UseTreeKind::Simple(None) }
}

fn renamed(names: &[&str], alias: &str) -> UseTree {
    UseTree { prefix: segments(names), kind: UseTreeKind::Simple(Some(alias.to_string())) }
}

fn braces(names: &[&str], children: Vec<UseTree>) -> UseTree {
    UseTree { prefix: segments(names), kind: UseTreeKind::Nested(children) }
}

fn star(names: &[&str]) -> UseTree {
    UseTree { prefix: segments(names), kind: UseTreeKind::Glob }
}

fn declared(tree: UseTree) -> Import {
    Import { span: Span { file: 0, lo: 0, hi: 0 }, lines: LineRange { first: 0, last: 0 }, tree }
}

#[test]
fn a_path_is_its_segments_with_colons() {
    assert_eq!(segments(&["std", "collections", "HashMap"]).to_code(), "std::collections::HashMap");
    assert_eq!(segments(&["x"]).to_code(), "x");
    assert_eq!(segments(&[]).to_code(), "");
    assert_eq!(segments(&["", "std", "io"]).to_code(), "::std::io");
}

#[test]
fn a_simple_tree_is_its_path() {
    assert_eq!(leaf(&["std", "path"]).to_code(), "std::path");
    assert_eq!(leaf(&["crate", "x", "y"]).to_code(), "crate::x::y");
}

#[test]
fn an_alias_follows_as() {
    assert_eq!(renamed(&["std", "io", "Result"], "IoResult").to_code(), "std::io::Result as IoResult");
    assert_eq!(renamed(&["a"], "_").to_code(), "a as _");
}

#[test]
fn a_group_is_set_in_braces() {
    assert_eq!(braces(&["base", "fuga"], vec![leaf(&["a"]), leaf(&["b"])]).to_code(), "base::fuga::{a, b}");
    assert_eq!(braces(&["x"], vec![leaf(&["only"])]).to_code(), "x::{only}");
    assert_eq!(braces(&["x"], vec![]).to_code(), "x::{}");
}

#[test]
fn a_wildcard_is_a_star() {
    assert_eq!(star(&["base", "test"]).to_code(), "base::test::*");
}

#[test]
fn no_prefix_means_no_colons() {
    assert_eq!(braces(&[], vec![star(&["ext"]), leaf(&["std", "fs"])]).to_code(), "{ext::*, std::fs}");
    assert_eq!(star(&[]).to_code(), "*");
    assert_eq!(braces(&[], vec![]).to_code(), "{}");
}

#[test]
fn an_empty_segment_still_makes_a_prefix() {
    assert_eq!(braces(&[""], vec![leaf(&["a"]), leaf(&["b"])]).to_code(), "::{a, b}");
    assert_eq!(star(&[""]).to_code(), "::*");
}

#[test]
fn groups_nest_and_keep_their_order() {
    let tree = braces(
        &["a"],
        vec![
            leaf(&["z"]),
            braces(&["b", "c"], vec![renamed(&["d"], "e"), star(&[]), braces(&[], vec![leaf(&["f"])])]),
            star(&["g"]),
            leaf(&["self"]),
        ],
    );
    assert_eq!(tree.to_code(), "a::{z, b::c::{d as e, *, {f}}, g::*, self}");
}

#[test]
fn a_block_has_one_statement_per_line() {
    let uses = vec![declared(leaf(&["std", "path"])), declared(star(&["a"])), declared(renamed(&["b"], "c"))];
    let borrowed: Vec<&Import> = uses.iter().collect();
    assert_eq!(block_to_code(&borrowed), "use std::path;\nuse a::*;\nuse b as c;");
    assert_eq!(block_to_code(&borrowed[..1]), "use std::path;");
    assert_eq!(block_to_code(&[]), "");
}

#[test]
fn distinct_trees_are_written_differently() {
    let trees = vec![
        leaf(&["a"]),
        leaf(&["a", "b"]),
        leaf(&["ab"]),
        renamed(&["a"], "b"),
        renamed(&["a", "b"], "c"),
        star(&[]),
        star(&["a"]),
        star(&["a", "b"]),
        braces(&[], vec![]),
        braces(&["a"], vec![]),
        braces(&[], vec![leaf(&["a"])]),
        braces(&["a"], vec![leaf(&["b"])]),
        braces(&[], vec![leaf(&["a"]), leaf(&["b"])]),
        braces(&[], vec![leaf(&["a", "b"])]),
        braces(&[], vec![braces(&[], vec![leaf(&["a"])]), leaf(&["b"])]),
        braces(&[], vec![braces(&[], vec![leaf(&["a"]), leaf(&["b"])])]),
        braces(&["a"], vec![star(&[]), renamed(&["b"], "c")]),
        braces(&["a"], vec![star(&["b"]), leaf(&["c"])]),
    ];
    for (i, first) in trees.iter().enumerate() {
        for second in &trees[i + 1..] {
            assert_ne!(first.to_code(), second.to_code(), "{first:?} and {second:?}");
        }
    }
}

#[test]
fn trees_that_no_source_states_can_be_written_alike() {
    // A simple tree without a prefix is written as nothing.
    assert_eq!(braces(&[], vec![leaf(&[])]).to_code(), braces(&[], vec![]).to_code());
    // A name with a mark in it reads like two names.
    assert_eq!(leaf(&["a::b"]).to_code(), leaf(&["a", "b"]).to_code());
    assert_eq!(leaf(&["a as b"]).to_code(), renamed(&["a"], "b").to_code());
}
