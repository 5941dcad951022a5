use mangameeya_reborn::archive::{is_image, natord_cmp, ZipPageSource};
use std::cmp::Ordering;

#[test]
fn natural_order_basic() {
    let mut v = vec!["page_10.jpg", "page_2.jpg", "page_1.jpg", "page_20.jpg"];
    v.sort_by(|a, b| natord_cmp(a, b));
    assert_eq!(
        v,
        vec!["page_1.jpg", "page_2.jpg", "page_10.jpg", "page_20.jpg"]
    );
}

#[test]
fn natural_order_mixed() {
    let mut v = vec!["ch1_p10.jpg", "ch1_p2.jpg", "ch2_p1.jpg", "ch1_p1.jpg"];
    v.sort_by(|a, b| natord_cmp(a, b));
    assert_eq!(
        v,
        vec!["ch1_p1.jpg", "ch1_p2.jpg", "ch1_p10.jpg", "ch2_p1.jpg"]
    );
}

#[test]
fn is_image_recognises_extensions() {
    assert!(is_image("page_001.jpg"));
    assert!(is_image("PAGE.PNG"));
    assert!(is_image("cover.webp"));
    assert!(!is_image("readme.txt"));
    assert!(!is_image("nodot"));
}

#[test]
fn natord_cmp_exact_results() {
    assert_eq!(natord_cmp("a2", "a10"), Ordering::Less);
    assert_eq!(natord_cmp("a10", "a2"), Ordering::Greater);
    assert_eq!(natord_cmp("x", "x"), Ordering::Equal);
    assert_eq!(natord_cmp("", ""), Ordering::Equal);
    assert_eq!(natord_cmp("", "a"), Ordering::Less);
    assert_eq!(natord_cmp("a", ""), Ordering::Greater);
    // Leading zeros do not change a number's value.
    assert_eq!(natord_cmp("p007", "p7"), Ordering::Equal);
    // A digit compares with a non-digit by code point.
    assert_eq!(natord_cmp("1", "a"), Ordering::Less);
    assert_eq!(natord_cmp("_", "1"), Ordering::Greater);
    assert_eq!(natord_cmp("B", "a"), Ordering::Less);
    // Digit runs beyond u64 still compare by value.
    assert_eq!(
        natord_cmp("99999999999999999999", "99999999999999999998"),
        Ordering::Greater
    );
    assert_eq!(
        natord_cmp("18446744073709551616", "18446744073709551617"),
        Ordering::Less
    );
    assert_eq!(
        natord_cmp("v0018446744073709551616", "v18446744073709551616"),
        Ordering::Equal
    );
    assert_eq!(natord_cmp("a123456789012345678901234567890", "a99"), Ordering::Greater);
    assert_eq!(natord_cmp("p2x", "p2y"), Ordering::Less);
}

#[test]
fn natord_cmp_laws_on_examples() {
    let names = ["a", "a1", "a01", "a2", "a10", "b", "", "10", "9z", "Z"];
    for x in names.iter() {
        assert_eq!(natord_cmp(x, x), Ordering::Equal);
        for y in names.iter() {
            assert_eq!(natord_cmp(x, y), natord_cmp(y, x).reverse());
            for z in names.iter() {
                if natord_cmp(x, y) != Ordering::Greater && natord_cmp(y, z) != Ordering::Greater {
                    assert_ne!(natord_cmp(x, z), Ordering::Greater);
                }
            }
        }
    }
}

#[test]
fn is_image_follows_path_extension_rules() {
    assert!(is_image("a.jpeg"));
    assert!(is_image("a.Gif"));
    assert!(is_image("x.bmp"));
    assert!(is_image("dir/sub/page.jpg"));
    assert!(is_image("archive.zip/page.JPG"));
    assert!(is_image("dir/page.png/"));
    assert!(is_image("dir/page.png/."));
    assert!(is_image("a..jpg"));
    assert!(!is_image(".jpg"));
    assert!(!is_image("dir/.png"));
    assert!(!is_image("page.jpg/.."));
    assert!(!is_image("page.jpg.txt"));
    assert!(!is_image("jpg"));
    assert!(!is_image(""));
    assert!(!is_image("."));
    assert!(!is_image("/"));
    assert!(!is_image("page."));
    assert!(!is_image("page.jpgx"));
    assert!(!is_image("images.jpg/readme"));
}

#[test]
fn page_source_filters_and_sorts() {
    let names: Vec<String> = vec![
        "book/page_10.jpg",
        "book/readme.txt",
        "book/page_2.PNG",
        "book/",
        "book/page_1.jpg",
        "book/page_01.jpg",
    ]
    .into_iter()
    .map(|s| s.to_string())
    .collect();
    let pages = ZipPageSource::from_names(names);
    assert_eq!(pages.page_count(), 4);
    assert_eq!(pages.entry_name(0), "book/page_1.jpg");
    assert_eq!(pages.entry_name(1), "book/page_01.jpg");
    assert_eq!(pages.entry_name(2), "book/page_2.PNG");
    assert_eq!(pages.entry_name(3), "book/page_10.jpg");
}

#[test]
fn page_source_keeps_archive_order_of_equivalent_names() {
    let names: Vec<String> = vec!["p01.jpg", "p1.jpg", "p001.jpg"]
        .into_iter()
        .map(|s| s.to_string())
        .collect();
    let pages = ZipPageSource::from_names(names);
    assert_eq!(pages.page_count(), 3);
    assert_eq!(pages.entry_name(0), "p01.jpg");
    assert_eq!(pages.entry_name(1), "p1.jpg");
    assert_eq!(pages.entry_name(2), "p001.jpg");
}

#[test]
fn page_source_of_no_images_is_empty() {
    let pages = ZipPageSource::from_names(vec!["a.txt".to_string(), "b/".to_string()]);
    assert_eq!(pages.page_count(), 0);
}

#[test]
fn is_image_ignores_case() {
    for name in ["page.JPG", "Page.Jpeg", "COVER.WEBP", "a/B.GiF", "notes.TXT"] {
        assert_eq!(is_image(name), is_image(&name.to_ascii_lowercase()));
    }
}

#[test]
fn numbers_compare_by_value_after_a_shared_prefix() {
    assert_eq!(natord_cmp("ch1_p2.jpg", "ch1_p10.jpg"), Ordering::Less);
    assert_eq!(natord_cmp("vol3/p9", "vol3/p10"), Ordering::Less);
    assert_eq!(natord_cmp("10a", "9b"), Ordering::Greater);
}

#[test]
fn natord_cmp_names_differing_in_a_number() {
    assert_eq!(natord_cmp("page_01.jpg", "page_1.jpg"), Ordering::Equal);
    assert_eq!(natord_cmp("page_000.jpg", "page_0.jpg"), Ordering::Equal);
    assert_eq!(natord_cmp("page_2.jpg", "page_10.jpg"), Ordering::Less);
    assert_eq!(natord_cmp("page_0100.jpg", "page_99.jpg"), Ordering::Greater);
}

#[test]
fn natord_cmp_without_digits_is_lexicographic() {
    let names = ["", "a", "ab", "abc", "b", "B", "_x", "\u{4e00}", "ba"];
    for x in names.iter() {
        for y in names.iter() {
            assert_eq!(natord_cmp(x, y), x.cmp(y));
        }
    }
}
