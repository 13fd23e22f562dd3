use pack_assets::preloader::{cache_key, extension_start, in_history_dir, is_image_file, is_skipped_dir, ImagePreloader, LoadedFile};

fn loaded(path: &str, content: Option<&[u8]>) -> LoadedFile {
    LoadedFile { relative_path: path.to_string(), content: content.map(|c| c.to_vec()), path_in_folder: path.to_string() }
}

#[test]
fn image_extensions_are_whitelisted_ignoring_case() {
    assert!(is_image_file("textures/block/stone.png"));
    assert!(is_image_file("a.PNG"));
    assert!(is_image_file("a.JpEg"));
    assert!(is_image_file("a.jpg"));
    assert!(is_image_file("a.gif"));
    assert!(is_image_file("a.webp"));
    assert!(!is_image_file("pack.mcmeta"));
    assert!(!is_image_file("notes.txt"));
    assert!(!is_image_file("png"));
    assert!(!is_image_file(".png"));
    assert!(!is_image_file("dir/.png"));
    assert!(!is_image_file("dir.png/readme"));
    assert!(!is_image_file("a.png.bak"));
    assert!(is_image_file("dir\\sub\\x.png"));
}

#[test]
fn extension_start_finds_last_dot_of_last_component() {
    assert_eq!(extension_start("a/b.c.png"), Some(6));
    assert_eq!(extension_start("a.b/c"), None);
    assert_eq!(extension_start(".hidden"), None);
    assert_eq!(extension_start("x."), Some(2));
}

#[test]
fn history_dir_is_skipped() {
    assert!(is_skipped_dir(".history"));
    assert!(!is_skipped_dir("history"));
    assert!(!is_skipped_dir(".history2"));
    assert!(!is_skipped_dir("textures"));
}

#[test]
fn cache_keys_use_forward_slashes() {
    assert_eq!(cache_key("assets\\minecraft\\textures\\a.png"), "assets/minecraft/textures/a.png");
    assert_eq!(cache_key("a/b\\c.png"), "a/b/c.png");
    assert_eq!(cache_key(""), "");
}

#[test]
fn preload_caches_exactly_the_image_files() {
    let mut p = ImagePreloader::new(16);
    let files = vec![
        loaded("pack/a.png", Some(b"A")),
        loaded("pack/b.jpg", Some(b"B")),
        loaded("pack/sub/c.webp", Some(b"C")),
        loaded("pack/pack.mcmeta", Some(b"{}")),
        loaded("pack/readme.txt", Some(b"hello")),
    ];
    assert_eq!(p.preload_folder_aggressive("/root/pack", Ok(files)), Ok(3));
    assert_eq!(p.get_stats(), (3, 0));
    assert_eq!(p.get_cached("pack/pack.mcmeta"), None);
    assert_eq!(p.get_cached("pack/readme.txt"), None);
}

#[test]
fn unreadable_file_is_left_out_of_the_count() {
    let mut p = ImagePreloader::new(4);
    let files = vec![loaded("a.png", Some(b"A")), loaded("b.png", None)];
    assert_eq!(p.preload_folder_aggressive("/f", Ok(files)), Ok(1));
    assert_eq!(p.get_cached("b.png"), None);
    assert_eq!(p.get_stats(), (1, 0));
}

#[test]
fn lookup_by_normalized_key_returns_identical_bytes() {
    let mut p = ImagePreloader::new(4);
    let bytes: Vec<u8> = vec![0x89, b'P', b'N', b'G', 0, 255];
    let files = vec![loaded("textures\\item\\apple.png", Some(&bytes))];
    assert_eq!(p.preload_folder_aggressive("/pack", Ok(files)), Ok(1));
    assert_eq!(p.get_cached("textures/item/apple.png"), Some(bytes));
    assert_eq!(p.get_cached("textures\\item\\apple.png"), None);
}

#[test]
fn later_file_with_same_key_wins() {
    let mut p = ImagePreloader::new(4);
    let files = vec![loaded("a/x.png", Some(b"old")), loaded("a\\x.png", Some(b"new"))];
    assert_eq!(p.preload_folder_aggressive("/pack", Ok(files)), Ok(2));
    assert_eq!(p.get_cached("a/x.png"), Some(b"new".to_vec()));
    assert_eq!(p.get_stats(), (1, 0));
}

#[test]
fn clear_empties_cache_and_stats() {
    let mut p = ImagePreloader::new(4);
    let files = vec![loaded("a.png", Some(b"A")), loaded("b.gif", Some(b"B"))];
    assert_eq!(p.preload_folder("/pack", Ok(files), 256), Ok(2));
    assert_eq!(p.get_stats(), (2, 0));
    p.clear_cache();
    assert_eq!(p.get_stats(), (0, 0));
    assert_eq!(p.get_cached("a.png"), None);
    assert_eq!(p.get_cached("b.gif"), None);
}

#[test]
fn walk_error_is_handed_back_with_cache_untouched() {
    let mut p = ImagePreloader::new(4);
    assert_eq!(p.preload_folder_aggressive("/pack", Ok(vec![loaded("a.png", Some(b"A"))])), Ok(1));
    let r = p.preload_folder_aggressive("/missing", Err("Failed to read directory".to_string()));
    assert_eq!(r, Err("Failed to read directory".to_string()));
    assert_eq!(p.get_stats(), (1, 0));
    assert_eq!(p.get_cached("a.png"), Some(b"A".to_vec()));
}

#[test]
fn new_cache_is_empty() {
    let p = ImagePreloader::new(0);
    assert_eq!(p.get_stats(), (0, 0));
    assert_eq!(p.get_cached("anything.png"), None);
}

#[test]
fn history_folders_are_detected_by_component() {
    assert!(in_history_dir(".history/a.png"));
    assert!(in_history_dir("pack/.history/old/a.png"));
    assert!(in_history_dir("pack\\.history\\a.png"));
    assert!(!in_history_dir("pack/x.history/a.png"));
    assert!(!in_history_dir("pack/.historyx/a.png"));
    assert!(!in_history_dir(".history"));
    assert!(!in_history_dir("pack/a.png"));
}

#[test]
fn files_below_history_folders_are_not_cached() {
    let mut p = ImagePreloader::new(8);
    let files = vec![
        loaded("pack/a.png", Some(b"A")),
        loaded("pack/.history/snap1/a.png", Some(b"old")),
        loaded(".history/b.png", Some(b"older")),
    ];
    assert_eq!(p.preload_folder_aggressive("/pack", Ok(files)), Ok(1));
    assert_eq!(p.get_cached("pack/.history/snap1/a.png"), None);
    assert_eq!(p.get_cached(".history/b.png"), None);
    assert_eq!(p.get_stats(), (1, 0));
}

#[test]
fn folder_inside_a_history_folder_is_still_cached() {
    let mut p = ImagePreloader::new(8);
    let files = vec![
        LoadedFile {
            relative_path: ".history/snap1/a.png".to_string(),
            content: Some(b"A".to_vec()),
            path_in_folder: "a.png".to_string(),
        },
        LoadedFile {
            relative_path: ".history/snap1/.history/b.png".to_string(),
            content: Some(b"B".to_vec()),
            path_in_folder: ".history/b.png".to_string(),
        },
    ];
    assert_eq!(p.preload_folder_aggressive("/pack/.history/snap1", Ok(files)), Ok(1));
    assert_eq!(p.get_cached(".history/snap1/a.png"), Some(b"A".to_vec()));
    assert_eq!(p.get_cached(".history/snap1/.history/b.png"), None);
}
