use pack_assets::versions::{
    archive_file_name, client_download, find_asset, find_version, is_cached_archive, latest_release,
    localization_after_details, localization_after_index, localization_destinations, progress_percent, resource_url,
    AssetError, AssetIndex, AssetObject, DownloadInfo, DownloadProgress, Downloads, LatestVersions, LocalizationStep,
    SkipReason, VersionDetails, VersionInfo, VersionManifest,
};

fn info(id: &str) -> VersionInfo {
    VersionInfo {
        id: id.to_string(),
        version_type: "release".to_string(),
        url: format!("https://example.test/{}.json", id),
        time: "2023-06-01T00:00:00+00:00".to_string(),
        release_time: "2023-06-01T00:00:00+00:00".to_string(),
    }
}

fn manifest() -> VersionManifest {
    VersionManifest {
        latest: LatestVersions { release: "1.20.2".to_string(), snapshot: "23w40a".to_string() },
        versions: vec![info("1.20.1"), info("1.20.2")],
    }
}

fn details(client: bool, index: bool) -> VersionDetails {
    VersionDetails {
        id: "1.20.1".to_string(),
        downloads: Downloads {
            client: if client {
                Some(DownloadInfo { sha1: "abc".to_string(), size: 10, url: "https://example.test/client.jar".to_string() })
            } else {
                None
            },
            server: None,
        },
        asset_index: if index {
            Some(AssetIndex {
                id: "8".to_string(),
                sha1: "def".to_string(),
                size: 1,
                total_size: 2,
                url: "https://example.test/index.json".to_string(),
            })
        } else {
            None
        },
    }
}

#[test]
fn resolves_listed_version() {
    let m = manifest();
    let v = find_version(&m, "1.20.1").unwrap();
    assert_eq!(v.id, "1.20.1");
    assert_eq!(v.url, "https://example.test/1.20.1.json");
}

#[test]
fn unlisted_version_is_not_found() {
    let m = manifest();
    match find_version(&m, "9.9.9") {
        Err(AssetError::VersionNotFound(id)) => assert_eq!(id, "9.9.9"),
        other => panic!("unexpected {:?}", other),
    }
}

#[test]
fn latest_release_is_resolved_through_the_manifest() {
    let m = manifest();
    assert_eq!(latest_release(&m).unwrap().id, "1.20.2");
    let mut broken = manifest();
    broken.latest.release = "2.0".to_string();
    assert!(matches!(latest_release(&broken), Err(AssetError::VersionNotFound(_))));
}

#[test]
fn client_download_is_required() {
    assert_eq!(client_download(&details(true, true)).unwrap().url, "https://example.test/client.jar");
    assert!(matches!(client_download(&details(false, true)), Err(AssetError::ClientUnavailable)));
}

#[test]
fn archive_names_and_cache_files() {
    assert_eq!(archive_file_name("1.20.1"), "1.20.1.jar");
    assert!(is_cached_archive("1.20.1.jar"));
    assert!(!is_cached_archive("1.20.1.JAR"));
    assert!(!is_cached_archive("notes.txt"));
    assert!(!is_cached_archive(".jar"));
    assert!(!is_cached_archive("jar"));
    assert!(!is_cached_archive("a.jar.part"));
}

#[test]
fn progress_is_a_whole_percentage() {
    assert_eq!(progress_percent(50, 200), Some(25));
    assert_eq!(progress_percent(1, 3), Some(33));
    assert_eq!(progress_percent(200, 200), Some(100));
    assert_eq!(progress_percent(10, 0), None);
    assert_eq!(progress_percent(u64::MAX, 1), Some(u32::MAX));
}

#[test]
fn progress_accumulates_chunks() {
    let mut p = DownloadProgress::new(1000);
    assert_eq!(p.record_chunk(250), Some(25));
    assert_eq!(p.record_chunk(500), Some(75));
    assert_eq!(p.downloaded, 750);
    let mut unknown = DownloadProgress::new(0);
    assert_eq!(unknown.record_chunk(100), None);
    assert_eq!(unknown.downloaded, 100);
}

#[test]
fn resource_url_is_sharded_by_hash_prefix() {
    assert_eq!(
        resource_url("5f2b8c9d").unwrap(),
        "https://resources.download.minecraft.net/5f/5f2b8c9d"
    );
    assert_eq!(resource_url("a"), None);
    assert_eq!(resource_url(""), None);
}

fn objects(with_lang: bool, hash: &str) -> Vec<(String, AssetObject)> {
    let mut v = vec![("minecraft/sounds.json".to_string(), AssetObject { hash: "ffee".to_string(), size: 3 })];
    if with_lang {
        v.push(("minecraft/lang/zh_cn.json".to_string(), AssetObject { hash: hash.to_string(), size: 9 }));
    }
    v
}

#[test]
fn asset_lookup_by_key() {
    let o = objects(true, "abcd");
    assert_eq!(find_asset(&o, "minecraft/lang/zh_cn.json").unwrap().hash, "abcd");
    assert!(find_asset(&o, "minecraft/lang/en_us.json").is_none());
}

#[test]
fn localization_skips_without_asset_index() {
    assert!(matches!(localization_after_details(&details(true, false)), LocalizationStep::Skip(SkipReason::NoAssetIndex)));
    match localization_after_details(&details(true, true)) {
        LocalizationStep::FetchIndex(u) => assert_eq!(u, "https://example.test/index.json"),
        other => panic!("unexpected {:?}", other),
    }
}

#[test]
fn localization_skips_when_key_absent() {
    let r = localization_after_index(&objects(false, ""));
    assert!(matches!(r, LocalizationStep::Skip(SkipReason::NotInIndex)));
}

#[test]
fn localization_fetches_resource_by_hash() {
    match localization_after_index(&objects(true, "0a1b2c")) {
        LocalizationStep::FetchResource(u) => assert_eq!(u, "https://resources.download.minecraft.net/0a/0a1b2c"),
        other => panic!("unexpected {:?}", other),
    }
    assert!(matches!(localization_after_index(&objects(true, "0")), LocalizationStep::Fail(AssetError::Parse(_))));
}

#[test]
fn localization_goes_to_two_destinations() {
    let (a, b) = localization_destinations();
    assert_eq!(a, ".little100/map.json");
    assert_eq!(b, "assets/minecraft/lang/zh_cn.json");
}

#[test]
fn asset_lookup_with_unique_keys_finds_the_only_entry() {
    let o = vec![
        ("a".to_string(), AssetObject { hash: "11".to_string(), size: 1 }),
        ("b".to_string(), AssetObject { hash: "22".to_string(), size: 2 }),
    ];
    assert_eq!(find_asset(&o, "b").unwrap().hash, "22");
    assert!(find_asset(&o, "c").is_none());
}
