use use_order::span::{is_adjacent, merge_span, LineRange, Span};

#[test]
fn merging_takes_the_outer_bounds() {
    let a = Span { file: 2, lo: 10, hi: 20 };
    let b = Span { file: 2, lo: 15, hi: 40 };
    assert_eq!(merge_span(a, b), Span { file: 2, lo: 10, hi: 40 });
    assert_eq!(merge_span(b, a), Span { file: 2, lo: 10, hi: 40 });
    let inner = Span { file: 2, lo: 12, hi: 13 };
    assert_eq!(merge_span(a, inner), a);
    assert_eq!(merge_span(inner, a), a);
    assert_eq!(merge_span(a, a), a);
}

#[test]
fn merging_stays_in_the_first_file() {
    let a = Span { file: 1, lo: 30, hi: 40 };
    let b = Span { file: 9, lo: 0, hi: u32::MAX };
    assert_eq!(merge_span(a, b), Span { file: 1, lo: 0, hi: u32::MAX });
    assert_eq!(merge_span(b, a), Span { file: 9, lo: 0, hi: u32::MAX });
}

#[test]
fn starting_before_goes_by_file_then_offset() {
    let a = Span { file: 0, lo: 9, hi: 10 };
    let b = Span { file: 1, lo: 3, hi: 4 };
    let c = Span { file: 1, lo: 3, hi: 90 };
    let d = Span { file: 1, lo: 4, hi: 5 };
    assert!(a.starts_before(&b));
    assert!(!b.starts_before(&a));
    assert!(!b.starts_before(&c));
    assert!(!c.starts_before(&b));
    assert!(c.starts_before(&d));
    assert!(!a.starts_before(&a));
}

#[test]
fn adjacent_means_at_most_one_line_down() {
    let at = |first: usize, last: usize| LineRange { first, last };
    assert!(is_adjacent(&at(3, 3), &at(4, 4)));
    assert!(!is_adjacent(&at(3, 3), &at(5, 5)));
    assert!(is_adjacent(&at(3, 3), &at(3, 3)));
    assert!(is_adjacent(&at(3, 3), &at(0, 1)));
    assert!(is_adjacent(&at(1, 6), &at(7, 9)));
    assert!(!is_adjacent(&at(1, 6), &at(8, 9)));
    assert!(is_adjacent(&at(0, 0), &at(1, 1)));
    assert!(!is_adjacent(&at(0, 0), &at(2, 2)));
}

#[test]
fn adjacency_at_the_end_of_the_number_range() {
    let top = LineRange { first: usize::MAX, last: usize::MAX };
    let below = LineRange { first: usize::MAX - 1, last: usize::MAX - 1 };
    let far = LineRange { first: usize::MAX - 2, last: usize::MAX - 2 };
    assert!(is_adjacent(&top, &top));
    assert!(is_adjacent(&below, &top));
    assert!(!is_adjacent(&far, &top));
    assert!(is_adjacent(&top, &far));
}

#[test]
fn line_range_of_line_numbers() {
    assert_eq!(LineRange::of_lines(&[]), None);
    assert_eq!(LineRange::of_lines(&[7]), Some(LineRange { first: 7, last: 7 }));
    assert_eq!(LineRange::of_lines(&[4, 5, 6]), Some(LineRange { first: 4, last: 6 }));
    assert_eq!(LineRange::of_lines(&[9, 2, 5, 2, 11, 3]), Some(LineRange { first: 2, last: 11 }));
}
