use rustc_span::source_map::FilePathMapping;
use rustc_span::{BytePos, FileName, SourceMap};
use use_order::fix::check_use_order;
use use_order::import::{Import, Item};
use use_order::span::{LineRange, Span};
use use_order::tree::{Path, UseTree, UseTreeKind};

const MODULE: &str = "mod testing {
    mod base {
        pub mod hoge {}
    }

    use base::hoge;

    use base::fuga::{
        a,
        b,
    };
    use base::test::*;
    // between two imports
    use std::path;
    use crate::x;
}
";

fn names(segments: &[&str]) -> Path {
    Path { segments: segments.iter().map(|s| s.to_string()).collect() }
}

fn plain(segments: &[&str]) -> UseTree {
    UseTree { prefix: names(segments), kind: UseTreeKind::Simple(None) }
}

/// The declaration whose statement begins with `start` and ends with the
/// next semicolon, with the lines that the source map gives for it.
fn located(map: &SourceMap, text: &str, start: &str, tree: UseTree) -> Import {
    let lo = text.find(start).expect("the statement");
    let hi = lo + text[lo..].find(';').expect("its end") + 1;
    let span = rustc_span::Span::new(BytePos(lo as u32), BytePos(hi as u32));
    let found = map.span_to_lines(span).expect("Failed to find line info");
    let lines: Vec<usize> = found.lines.iter().map(|info| info.line_index).collect();
    Import {
        span: Span { file: 0, lo: span.lo().0, hi: span.hi().0 },
        lines: LineRange::of_lines(&lines).expect("a line"),
        tree,
    }
}

fn fixture() -> Vec<Import> {
    let map = SourceMap::new(FilePathMapping::empty());
    map.new_source_file(FileName::Custom("testing".to_string()), MODULE.to_string());
    vec![
        located(&map, MODULE, "use base::hoge", plain(&["base", "hoge"])),
        located(
            &map,
            MODULE,
            "use base::fuga",
            UseTree {
                prefix: names(&["base", "fuga"]),
                kind: UseTreeKind::Nested(vec![plain(&["a"]), plain(&["b"])]),
            },
        ),
        located(
            &map,
            MODULE,
            "use base::test",
            UseTree { prefix: names(&["base", "test"]), kind: UseTreeKind::Glob },
        ),
        located(&map, MODULE, "use std::path", plain(&["std", "path"])),
        located(&map, MODULE, "use crate::x", plain(&["crate", "x"])),
    ]
}

#[test]
fn lines_come_from_the_source_map() {
    let imports = fixture();
    let lines: Vec<LineRange> = imports.iter().map(|import| import.lines).collect();
    assert_eq!(
        lines,
        vec![
            LineRange { first: 5, last: 5 },
            LineRange { first: 7, last: 10 },
            LineRange { first: 11, last: 11 },
            LineRange { first: 13, last: 13 },
            LineRange { first: 14, last: 14 },
        ]
    );
}

#[test]
fn a_module_located_by_the_source_map_is_regrouped() {
    let imports = fixture();
    let lo = imports[0].span.lo;
    let hi = imports[4].span.hi;
    let items: Vec<Item> = imports.into_iter().map(Item::Use).collect();
    let suggestion = check_use_order(&items).expect("a suggestion");
    assert_eq!(
        suggestion.replacement,
        "use std::path;\n\nuse base::hoge;\nuse base::fuga::{a, b};\nuse base::test::*;\n\nuse crate::x;\n"
    );
    assert_eq!(suggestion.span, Span { file: 0, lo, hi });
    assert_eq!(&MODULE[lo as usize..hi as usize].lines().count(), &10);
}

#[test]
fn a_comment_line_between_two_imports_parts_them() {
    // `base::test::*` stands on line 11 and `std::path` on line 13: by line
    // numbers the comment between them counts like an empty line.
    let imports = fixture();
    let items = vec![
        Item::Use(Import { tree: plain(&["std", "a"]), ..imports[2].clone() }),
        Item::Use(imports[3].clone()),
    ];
    assert!(check_use_order(&items).is_some());
}
