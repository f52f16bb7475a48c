use image_browser::extension::{chars_of, has_image_extension, is_image_extension};

#[test]
fn recognises_the_three_extensions() {
    assert!(is_image_extension("jpg"));
    assert!(is_image_extension("jpeg"));
    assert!(is_image_extension("png"));
}

#[test]
fn recognises_extensions_in_any_case() {
    assert!(is_image_extension("JPG"));
    assert!(is_image_extension("Jpg"));
    assert!(is_image_extension("jPeG"));
    assert!(is_image_extension("JPEG"));
    assert!(is_image_extension("PNG"));
    assert!(is_image_extension("pNg"));
}

#[test]
fn rejects_other_extensions() {
    assert!(!is_image_extension(""));
    assert!(!is_image_extension("gif"));
    assert!(!is_image_extension("jp"));
    assert!(!is_image_extension("jpe"));
    assert!(!is_image_extension("jpgg"));
    assert!(!is_image_extension("jpegs"));
    assert!(!is_image_extension("pngx"));
    assert!(!is_image_extension("txt"));
    assert!(!is_image_extension("bmp"));
    assert!(!is_image_extension("webp"));
    assert!(!is_image_extension(".png"));
    assert!(!is_image_extension("png "));
}

#[test]
fn folds_only_ascii_capitals() {
    // 'j' - 32 is 'J'; the characters next to the capitals and the letters are not folded.
    assert!(!is_image_extension("*pg"));
    assert!(!is_image_extension("\u{212a}pg"));
    assert!(!is_image_extension("p\u{ff2e}g"));
    assert!(!is_image_extension("jp\u{e9}g"));
    assert!(!is_image_extension("@[`"));
}

#[test]
fn takes_the_extension_after_the_last_dot() {
    assert!(has_image_extension("photo.jpg"));
    assert!(has_image_extension("archive.tar.png"));
    assert!(has_image_extension("a.txt.JPEG"));
    assert!(!has_image_extension("photo.jpg.txt"));
    assert!(!has_image_extension("photo.png.bak"));
    assert!(has_image_extension("..jpg"));
}

#[test]
fn takes_the_extension_of_the_last_component() {
    assert!(has_image_extension("/home/me/pics/PHOTO.JPG"));
    assert!(has_image_extension("./a.png"));
    assert!(has_image_extension("/a.b/c.d/e.jpeg"));
    assert!(!has_image_extension("/home/me/pics.jpg/readme"));
    assert!(!has_image_extension("/home/me/pics.jpg/notes.txt"));
    assert!(!has_image_extension("/home/me/pics.jpg/"));
}

#[test]
fn name_without_extension_is_not_an_image() {
    assert!(!has_image_extension(""));
    assert!(!has_image_extension("jpg"));
    assert!(!has_image_extension("/pics/png"));
    assert!(!has_image_extension("photo."));
    assert!(!has_image_extension("photojpg"));
}

#[test]
fn name_that_is_only_a_dot_and_an_extension_has_none() {
    assert!(!has_image_extension(".jpg"));
    assert!(!has_image_extension("/pics/.png"));
    assert!(!has_image_extension("/pics/.jpeg"));
    assert!(has_image_extension("/pics/.hidden.jpeg"));
}

#[test]
fn extension_beside_characters_outside_ascii() {
    assert!(has_image_extension("/pics/\u{e9}t\u{e9}.PNG"));
    assert!(has_image_extension("/\u{4e2d}\u{6587}/\u{1f600}.jpg"));
    assert!(!has_image_extension("/pics/a.jp\u{fffd}g"));
    assert!(!has_image_extension("/pics/a.\u{fffd}"));
}

#[test]
fn chars_of_gives_each_character_in_order() {
    assert_eq!(chars_of(""), Vec::<char>::new());
    assert_eq!(chars_of("a.JPG"), vec!['a', '.', 'J', 'P', 'G']);
    assert_eq!(chars_of("\u{e9}\u{1f600}z"), vec!['\u{e9}', '\u{1f600}', 'z']);
}

fn lower_cased_is_listed(ext: &str) -> bool {
    let lowered = ext.to_lowercase();
    lowered == "jpg" || lowered == "jpeg" || lowered == "png"
}

#[test]
fn decides_as_full_lower_casing_does_for_every_character() {
    // Each listed extension with one stretch of it replaced by one character.
    let mut frames: Vec<(&str, &str)> = Vec::new();
    for word in ["jpg", "jpeg", "png"] {
        for from in 0..word.len() {
            for to in from + 1..=word.len() {
                frames.push((&word[..from], &word[to..]));
            }
        }
    }
    assert_eq!(frames.len(), 22);
    let mut text = String::new();
    let mut listed = 0;
    for code in 0..=0x10ffff_u32 {
        let Some(c) = char::from_u32(code) else {
            continue;
        };
        for (before, after) in &frames {
            text.clear();
            text.push_str(before);
            text.push(c);
            text.push_str(after);
            let expected = lower_cased_is_listed(&text);
            assert_eq!(is_image_extension(&text), expected, "{:?}", text);
            if expected {
                listed += 1;
            }
        }
    }
    // Ten letters in either case, and `jpg` out of `jpeg` in four more ways.
    assert_eq!(listed, 24);
}

#[test]
fn takes_the_extension_that_the_standard_library_takes() {
    let directories = ["", "/", "/pics/", "./", "../", "/a.b/", "/home/me/my.pics/", "/x.jpg/"];
    let names = [
        "a", "a.", ".a", "a.b", "a.jpg", "a.JPG", "a.jpeg", "a.png", "a.PNG", "a.jpg.txt",
        "a.txt.jpg", ".jpg", ".png", "..jpg", "...jpg", ".a.jpg", "a..jpg", "a.jpg.", "jpg",
        "a b.jpg", "a.j pg", "\u{e9}.jpeg", "a.\u{e9}", "a.jp\u{e9}g", "\u{1f600}.PnG", "a.gif",
        "a.jpgx", "a.xjpg", "a.JpEg", "a.jPG", "a.pNg", "a.Jpe", "-.png", "a.tar.gz", "a.png~",
    ];
    for directory in directories {
        for name in names {
            let path = format!("{}{}", directory, name);
            let expected = std::path::Path::new(&path)
                .extension()
                .and_then(|ext| ext.to_str())
                .map(lower_cased_is_listed)
                .unwrap_or(false);
            assert_eq!(has_image_extension(&path), expected, "{:?}", path);
        }
    }
}
