use std::cmp::Ordering;

use letur_project::panel::{order, sorts_first, text_first};

#[test]
fn the_panel_order_puts_a_file_before_a_folder_beside_it_and_compares_segments_as_bytes() {
    assert_eq!(order("z.md", "a/b.md"), Ordering::Less);
    assert_eq!(order("refs.yml", "loose/orphan.md"), Ordering::Less);
    assert_eq!(order("sections/mark.svg", "sections/missing.md"), Ordering::Less);
    assert_eq!(order("a/b.md", "z.md"), Ordering::Greater);
    assert_eq!(order("book.md", "book.md"), Ordering::Equal);
    assert!(sorts_first("Zed.md", "book.md"));
    assert!(!sorts_first("book.md", "book.md"));
}

#[test]
fn texts_compare_as_strings_do() {
    for (a, b) in [("a.example", "b.example"), ("B", "a"), ("ab", "abc"), ("", "a"), ("é", "z")] {
        assert_eq!(text_first(a, b), a < b, "{a:?} against {b:?}");
        assert_eq!(text_first(b, a), b < a, "{b:?} against {a:?}");
    }
    assert!(!text_first("same", "same"));
}
