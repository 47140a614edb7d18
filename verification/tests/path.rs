use three_d_asset::io::path::NormalizedPath;

fn path(text: &str) -> NormalizedPath {
    NormalizedPath::new(text)
}

#[test]
fn backslashes_become_slashes() {
    assert_eq!(path("a\\b\\c.png").to_string(), "a/b/c.png");
    assert_eq!(path("\\").to_string(), "/");
    assert_eq!(path("a\\\\b").to_string(), "a//b");
}

#[test]
fn a_normal_path_stays_as_it_is() {
    assert_eq!(path("assets/textures/test.png").to_string(), "assets/textures/test.png");
    assert_eq!(path("").to_string(), "");
    assert_eq!(path("no separators").to_string(), "no separators");
}

#[test]
fn normalizing_twice_changes_nothing_more() {
    let once = path("a\\b/c\\d").to_string();
    assert_eq!(once, "a/b/c/d");
    assert_eq!(path(&once).to_string(), once);
}

#[test]
fn characters_outside_ascii_are_kept() {
    assert_eq!(path("bilder\\größe\\日本.png").to_string(), "bilder/größe/日本.png");
}

#[test]
fn same_compares_the_normalized_text() {
    assert!(path("a\\b").same(&path("a/b")));
    assert!(path("").same(&path("")));
    assert!(!path("a/b").same(&path("a/c")));
    assert!(!path("a/b").same(&path("a/b/")));
    assert!(!path("a/b").same(&path("A/b")));
}

#[test]
fn relaxed_cuts_both_jpeg_extensions_to_the_same_text() {
    assert_eq!(path("photo.jpeg").relaxed().to_string(), "photo.jp");
    assert_eq!(path("photo.jpg").relaxed().to_string(), "photo.jp");
    assert_eq!(path("a\\b\\photo.jpeg").relaxed().to_string(), "a/b/photo.jp");
    assert_eq!(path(".jpeg").relaxed().to_string(), ".jp");
    assert_eq!(path(".jpg").relaxed().to_string(), ".jp");
}

#[test]
fn relaxed_leaves_other_paths_alone() {
    assert_eq!(path("test.png").relaxed().to_string(), "test.png");
    assert_eq!(path("").relaxed().to_string(), "");
    assert_eq!(path("jpg").relaxed().to_string(), "jpg");
    assert_eq!(path("jpeg").relaxed().to_string(), "jpeg");
    assert_eq!(path("photo.JPG").relaxed().to_string(), "photo.JPG");
    assert_eq!(path("photo.jpeg.bak").relaxed().to_string(), "photo.jpeg.bak");
    assert_eq!(path("photo.jpe").relaxed().to_string(), "photo.jpe");
}

#[test]
fn contains_finds_a_part_anywhere() {
    let hay = path("assets/textures/test.png");
    assert!(hay.contains(&path("assets")));
    assert!(hay.contains(&path("textures/")));
    assert!(hay.contains(&path("test.png")));
    assert!(hay.contains(&path("assets/textures/test.png")));
    assert!(hay.contains(&path("g")));
}

#[test]
fn contains_rejects_what_is_not_a_part() {
    let hay = path("assets/textures/test.png");
    assert!(!hay.contains(&path("test.jpg")));
    assert!(!hay.contains(&path("assets/textures/test.png/")));
    assert!(!hay.contains(&path("Assets")));
    assert!(!hay.contains(&path("assetstextures")));
    assert!(!path("ab").contains(&path("abc")));
}

#[test]
fn the_empty_path_is_part_of_every_path() {
    assert!(path("anything").contains(&path("")));
    assert!(path("").contains(&path("")));
    assert!(!path("").contains(&path("a")));
}

#[test]
fn contains_sees_a_part_after_a_false_start() {
    assert!(path("aaab").contains(&path("aab")));
    assert!(path("abababc").contains(&path("ababc")));
    assert!(!path("ababab").contains(&path("ababc")));
}
