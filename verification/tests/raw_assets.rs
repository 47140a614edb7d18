use three_d_asset::io::RawAssets;
use three_d_asset::Error;

fn seventeen_bytes() -> Vec<u8> {
    vec![137, 80, 78, 71, 13, 10, 26, 10, 0, 0, 0, 13, 73, 72, 68, 82, 0]
}

fn paths_of(assets: &RawAssets) -> Vec<String> {
    let mut paths = Vec::new();
    for (path, _) in assets.iter() {
        paths.push(path);
    }
    paths
}

#[test]
fn a_new_store_is_empty() {
    let assets = RawAssets::new();
    assert!(assets.iter().is_empty());
    assert!(RawAssets::default().iter().is_empty());
}

#[test]
fn lookup_in_an_empty_store_fails() {
    let mut assets = RawAssets::new();
    assert_eq!(assets.get(""), Err(Error::NotLoaded(String::new())));
    assert_eq!(assets.get("a.png"), Err(Error::NotLoaded("a.png".to_string())));
    assert_eq!(assets.remove("a.png"), Err(Error::NotLoaded("a.png".to_string())));
    assert_eq!(assets.match_path("a.png"), Err(Error::NotLoaded("a.png".to_string())));
}

#[test]
fn get_returns_what_insert_stored() {
    let mut assets = RawAssets::new();
    assets.insert("models/tree.obj", vec![1, 2, 3]);
    assert_eq!(assets.get("models/tree.obj").unwrap(), &[1, 2, 3]);
    assert_eq!(assets.get("models/tree.obj").unwrap(), &[1, 2, 3]);
}

#[test]
fn get_returns_an_empty_buffer_as_stored() {
    let mut assets = RawAssets::new();
    assets.insert("empty.bin", Vec::new());
    assert_eq!(assets.get("empty.bin").unwrap(), &[] as &[u8]);
}

#[test]
fn insert_normalizes_the_path() {
    let mut assets = RawAssets::new();
    assets.insert("models\\tree.obj", vec![7]);
    assert_eq!(paths_of(&assets), vec!["models/tree.obj".to_string()]);
    assert_eq!(assets.get("models/tree.obj").unwrap(), &[7]);
    assert_eq!(assets.get("models\\tree.obj").unwrap(), &[7]);
}

#[test]
fn insert_can_be_chained() {
    let mut assets = RawAssets::new();
    assets.insert("a", vec![1]).insert("b", vec![2]).insert("c", vec![3]);
    assert_eq!(paths_of(&assets), vec!["a".to_string(), "b".to_string(), "c".to_string()]);
}

#[test]
fn a_second_insert_replaces_the_buffer() {
    let mut assets = RawAssets::new();
    assets.insert("a/icon.png", vec![1, 1, 1]);
    assets.insert("a/icon.png", vec![2, 2]);
    assert_eq!(assets.get("a/icon.png").unwrap(), &[2, 2]);
    assert_eq!(assets.iter().len(), 1);
}

#[test]
fn a_second_insert_under_another_spelling_replaces_the_buffer() {
    let mut assets = RawAssets::new();
    assets.insert("a/icon.png", vec![1]);
    assets.insert("a\\icon.png", vec![2]);
    assert_eq!(assets.iter().len(), 1);
    assert_eq!(assets.get("a/icon.png").unwrap(), &[2]);
}

#[test]
fn a_replaced_entry_keeps_its_place() {
    let mut assets = RawAssets::new();
    assets.insert("first", vec![1]);
    assets.insert("second", vec![2]);
    assets.insert("first", vec![3]);
    let entries = assets.iter();
    assert_eq!(entries.len(), 2);
    assert_eq!(entries[0], ("first".to_string(), &[3u8] as &[u8]));
    assert_eq!(entries[1], ("second".to_string(), &[2u8] as &[u8]));
}

#[test]
fn remove_returns_the_bytes_once() {
    let mut assets = RawAssets::new();
    assets.insert("sound.wav", vec![9, 8, 7]);
    assert_eq!(assets.remove("sound.wav"), Ok(vec![9, 8, 7]));
    assert_eq!(assets.remove("sound.wav"), Err(Error::NotLoaded("sound.wav".to_string())));
    assert_eq!(assets.get("sound.wav"), Err(Error::NotLoaded("sound.wav".to_string())));
    assert!(assets.iter().is_empty());
}

#[test]
fn remove_leaves_the_other_entries_in_order() {
    let mut assets = RawAssets::new();
    assets.insert("a", vec![1]).insert("b", vec![2]).insert("c", vec![3]);
    assert_eq!(assets.remove("b"), Ok(vec![2]));
    let entries = assets.iter();
    assert_eq!(entries.len(), 2);
    assert_eq!(entries[0], ("a".to_string(), &[1u8] as &[u8]));
    assert_eq!(entries[1], ("c".to_string(), &[3u8] as &[u8]));
}

#[test]
fn a_failed_remove_changes_nothing() {
    let mut assets = RawAssets::new();
    assets.insert("a", vec![1]);
    assert_eq!(assets.remove("b"), Err(Error::NotLoaded("b".to_string())));
    assert_eq!(assets.get("a").unwrap(), &[1]);
    assert_eq!(assets.iter().len(), 1);
}

#[test]
fn after_a_remove_the_path_may_resolve_to_another_holder() {
    let mut assets = RawAssets::new();
    assets.insert("a.png", vec![1]);
    assets.insert("dir/a.png", vec![2]);
    assert_eq!(assets.remove("a.png"), Ok(vec![1]));
    assert_eq!(assets.match_path("a.png"), Ok("dir/a.png".to_string()));
    assert_eq!(assets.remove("a.png"), Ok(vec![2]));
    assert_eq!(assets.remove("a.png"), Err(Error::NotLoaded("a.png".to_string())));
}

#[test]
fn not_loaded_holds_the_path_as_it_was_given() {
    let assets = RawAssets::new();
    assert_eq!(
        assets.get("textures\\missing.png"),
        Err(Error::NotLoaded("textures\\missing.png".to_string()))
    );
    assert_eq!(assets.get("missing.jpeg"), Err(Error::NotLoaded("missing.jpeg".to_string())));
}

#[test]
fn a_jpeg_is_found_under_the_other_spelling() {
    let mut assets = RawAssets::new();
    assets.insert("a/b/photo.jpeg", vec![1, 2]);
    assert_eq!(assets.get("photo.jpg").unwrap(), &[1, 2]);
    assert_eq!(assets.match_path("photo.jpg"), Ok("a/b/photo.jpeg".to_string()));

    let mut assets = RawAssets::new();
    assets.insert("a/b/photo.jpg", vec![3, 4]);
    assert_eq!(assets.get("photo.jpeg").unwrap(), &[3, 4]);
    assert_eq!(assets.match_path("a/b/photo.jpeg"), Ok("a/b/photo.jpg".to_string()));
}

#[test]
fn a_jpeg_query_finds_any_path_that_holds_its_stem() {
    let mut assets = RawAssets::new();
    assets.insert("photo.jpx", vec![5]);
    assert_eq!(assets.match_path("photo.jpg"), Ok("photo.jpx".to_string()));
    assert_eq!(assets.match_path("photo.jpeg"), Ok("photo.jpx".to_string()));
    assert_eq!(assets.match_path("photo.png"), Err(Error::NotLoaded("photo.png".to_string())));
}

#[test]
fn the_extension_is_matched_by_case() {
    let mut assets = RawAssets::new();
    assets.insert("photo.jpeg", vec![1]);
    assert_eq!(assets.get("photo.JPG"), Err(Error::NotLoaded("photo.JPG".to_string())));
}

#[test]
fn a_file_name_finds_the_full_path() {
    let mut assets = RawAssets::new();
    assets.insert("test_data/test.png", vec![4, 2]);
    assert_eq!(assets.get("test.png").unwrap(), &[4, 2]);
    assert_eq!(assets.get("").unwrap(), &[4, 2]);
    assert_eq!(assets.get("test_data").unwrap(), &[4, 2]);
    assert_eq!(assets.match_path("test.png"), Ok("test_data/test.png".to_string()));
    assert_eq!(assets.get("test.pn").unwrap(), &[4, 2]);
    assert_eq!(assets.get("est.png").unwrap(), &[4, 2]);
    assert_eq!(assets.get("test.png "), Err(Error::NotLoaded("test.png ".to_string())));
}

#[test]
fn a_file_name_with_foreign_separators_finds_the_full_path() {
    let mut assets = RawAssets::new();
    assets.insert("assets/textures/test.png", vec![1]);
    assert_eq!(assets.match_path("textures\\test.png"), Ok("assets/textures/test.png".to_string()));
}

#[test]
fn the_one_holder_is_found_among_others() {
    let mut assets = RawAssets::new();
    assets.insert("models/tree.obj", vec![1]);
    assets.insert("textures/test.png", vec![2]);
    assets.insert("sounds/wind.wav", vec![3]);
    assert_eq!(assets.get("test.png").unwrap(), &[2]);
    assert_eq!(assets.get("wind").unwrap(), &[3]);
    assert_eq!(assets.get("tree.obj").unwrap(), &[1]);
}

#[test]
fn among_several_holders_the_oldest_is_found() {
    let mut assets = RawAssets::new();
    assets.insert("b/test.png", vec![1]);
    assets.insert("a/test.png", vec![2]);
    assert_eq!(assets.match_path("test.png"), Ok("b/test.png".to_string()));
    assert_eq!(assets.get("test.png").unwrap(), &[1]);
    assert_eq!(assets.get("test.png").unwrap(), &[1]);
    assert_eq!(assets.get("").unwrap(), &[1]);
}

#[test]
fn replacing_a_buffer_does_not_change_which_holder_is_found() {
    let mut assets = RawAssets::new();
    assets.insert("b/test.png", vec![1]);
    assets.insert("a/test.png", vec![2]);
    assets.insert("b/test.png", vec![3]);
    assert_eq!(assets.get("test.png").unwrap(), &[3]);
}

#[test]
fn the_exact_path_is_found_before_an_older_holder() {
    let mut assets = RawAssets::new();
    assets.insert("dir/test.png", vec![1]);
    assets.insert("test.png", vec![2]);
    assert_eq!(assets.get("test.png").unwrap(), &[2]);
    assert_eq!(assets.match_path("test.png"), Ok("test.png".to_string()));
}

#[test]
fn the_exact_jpeg_path_is_found_before_its_alias() {
    let mut assets = RawAssets::new();
    assets.insert("photo.jpg", vec![1]);
    assets.insert("photo.jpeg", vec![2]);
    assert_eq!(assets.get("photo.jpeg").unwrap(), &[2]);
    assert_eq!(assets.get("photo.jpg").unwrap(), &[1]);
}

#[test]
fn extend_moves_every_entry() {
    let mut into = RawAssets::new();
    into.insert("a", vec![1]).insert("b", vec![2]);
    let mut from = RawAssets::new();
    from.insert("c", vec![3]).insert("b", vec![20]).insert("d", vec![4]);
    into.extend(&mut from);
    assert!(from.iter().is_empty());
    let entries = into.iter();
    assert_eq!(entries.len(), 4);
    assert_eq!(entries[0], ("a".to_string(), &[1u8] as &[u8]));
    assert_eq!(entries[1], ("b".to_string(), &[20u8] as &[u8]));
    assert_eq!(entries[2], ("c".to_string(), &[3u8] as &[u8]));
    assert_eq!(entries[3], ("d".to_string(), &[4u8] as &[u8]));
}

#[test]
fn the_source_of_extend_can_be_used_again() {
    let mut into = RawAssets::new();
    let mut from = RawAssets::new();
    from.insert("a", vec![1]);
    into.extend(&mut from);
    assert_eq!(from.get("a"), Err(Error::NotLoaded("a".to_string())));
    from.insert("b", vec![2]);
    assert_eq!(from.get("b").unwrap(), &[2]);
    assert_eq!(into.get("a").unwrap(), &[1]);
    assert_eq!(into.get("b"), Err(Error::NotLoaded("b".to_string())));
}

#[test]
fn extend_with_an_empty_store_changes_nothing() {
    let mut into = RawAssets::new();
    into.insert("a", vec![1]);
    let mut from = RawAssets::new();
    into.extend(&mut from);
    assert_eq!(paths_of(&into), vec!["a".to_string()]);
    assert!(from.iter().is_empty());
}

#[test]
fn extend_can_be_chained() {
    let mut into = RawAssets::new();
    let mut one = RawAssets::new();
    one.insert("a", vec![1]);
    let mut two = RawAssets::new();
    two.insert("a", vec![2]);
    into.extend(&mut one).extend(&mut two).insert("z", vec![26]);
    assert_eq!(into.get("a").unwrap(), &[2]);
    assert_eq!(paths_of(&into), vec!["a".to_string(), "z".to_string()]);
}

#[test]
fn iter_gives_every_entry_and_can_be_repeated() {
    let mut assets = RawAssets::new();
    assets.insert("x\\one.bin", vec![1]).insert("two.bin", vec![2, 2]);
    let first = assets.iter();
    let second = assets.iter();
    assert_eq!(first, second);
    assert_eq!(first.len(), 2);
    assert_eq!(first[0], ("x/one.bin".to_string(), &[1u8] as &[u8]));
    assert_eq!(first[1], ("two.bin".to_string(), &[2u8, 2] as &[u8]));
}

#[test]
fn paths_outside_ascii_resolve() {
    let mut assets = RawAssets::new();
    assets.insert("bilder\\größe.jpeg", vec![1]);
    assert_eq!(assets.match_path("größe.jpg"), Ok("bilder/größe.jpeg".to_string()));
    assert_eq!(assets.match_path("öß"), Ok("bilder/größe.jpeg".to_string()));
    assert_eq!(assets.match_path("grosse"), Err(Error::NotLoaded("grosse".to_string())));
}

#[test]
fn end_to_end() {
    let mut assets = RawAssets::new();
    assets.insert("textures/test.png", seventeen_bytes());
    assert_eq!(assets.get("test.png").unwrap().len(), 17);
    assert_eq!(assets.get("test.png").unwrap(), seventeen_bytes().as_slice());
    assert_eq!(assets.remove("test.png"), Ok(seventeen_bytes()));
    assert!(assets.iter().is_empty());
    assert_eq!(assets.get("test.png"), Err(Error::NotLoaded("test.png".to_string())));
}
