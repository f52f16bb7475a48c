use image_browser::order::{rank_paths, Rank};
use image_browser::ImageEntry;

fn entry(path: &str, size: u64) -> ImageEntry {
    ImageEntry { path: path.to_string(), size }
}

#[test]
fn ranks_equal_paths_as_same() {
    assert_eq!(rank_paths("", ""), Rank::Same);
    assert_eq!(rank_paths("/pics/a.jpg", "/pics/a.jpg"), Rank::Same);
    assert_eq!(rank_paths("\u{e9}", "\u{e9}"), Rank::Same);
}

#[test]
fn ranks_by_the_first_difference() {
    assert_eq!(rank_paths("/pics/a.jpg", "/pics/b.jpg"), Rank::Before);
    assert_eq!(rank_paths("/pics/b.jpg", "/pics/a.jpg"), Rank::After);
    assert_eq!(rank_paths("abcx", "abda"), Rank::Before);
    assert_eq!(rank_paths("Z", "a"), Rank::Before);
    assert_eq!(rank_paths("a", "Z"), Rank::After);
}

#[test]
fn ranks_a_prefix_before_what_it_begins() {
    assert_eq!(rank_paths("", "a"), Rank::Before);
    assert_eq!(rank_paths("a", ""), Rank::After);
    assert_eq!(rank_paths("/pics/a", "/pics/a.jpg"), Rank::Before);
    assert_eq!(rank_paths("/pics/a.jpg", "/pics/a"), Rank::After);
}

#[test]
fn ranks_as_str_compares() {
    let samples = [
        "", "a", "A", "ab", "b", "/", "/a", "/a/b.png", "/a.png", "~", "\u{7f}", "\u{80}",
        "\u{e9}", "\u{7ff}", "\u{800}", "\u{4e2d}", "\u{ffff}", "\u{10000}", "\u{1f600}",
        "z\u{e9}", "\u{e9}z",
    ];
    for a in samples {
        for b in samples {
            let expected = if a < b {
                Rank::Before
            } else if a == b {
                Rank::Same
            } else {
                Rank::After
            };
            assert_eq!(rank_paths(a, b), expected, "{:?} against {:?}", a, b);
        }
    }
}

#[test]
fn entry_precedes_by_path_then_size() {
    assert!(entry("/a.jpg", 9).precedes(&entry("/b.jpg", 1)));
    assert!(!entry("/b.jpg", 1).precedes(&entry("/a.jpg", 9)));
    assert!(entry("/a.jpg", 1).precedes(&entry("/a.jpg", 2)));
    assert!(!entry("/a.jpg", 2).precedes(&entry("/a.jpg", 1)));
    assert!(entry("/a.jpg", 2).precedes(&entry("/a.jpg", 2)));
}

#[test]
fn entry_precedes_as_the_derived_order_does() {
    let samples = [
        entry("", 0),
        entry("a", 0),
        entry("a", 1),
        entry("a", u64::MAX),
        entry("b", 0),
        entry("B", 7),
        entry("ab", 3),
        entry("\u{e9}", 2),
        entry("\u{1f600}", 2),
    ];
    for a in &samples {
        for b in &samples {
            assert_eq!(a.precedes(b), a <= b, "{:?} against {:?}", a, b);
        }
    }
}
