use crate::preloader::extension_start;
use crate::preloader::is_extension_dot;
use vstd::prelude::*;

verus! {

/// The version registry's manifest: the latest ids and every version.
#[derive(Clone, Debug)]
pub struct VersionManifest {
    pub latest: LatestVersions,
    pub versions: Vec<VersionInfo>,
}

/// The ids of the latest release and the latest snapshot.
#[derive(Clone, Debug)]
pub struct LatestVersions {
    pub release: String,
    pub snapshot: String,
}

/// A summary of one version in the manifest.
#[derive(Clone, Debug)]
pub struct VersionInfo {
    pub id: String,
    pub version_type: String,
    pub url: String,
    pub time: String,
    pub release_time: String,
}

/// The per-version manifest.
#[derive(Clone, Debug)]
pub struct VersionDetails {
    pub id: String,
    pub downloads: Downloads,
    pub asset_index: Option<AssetIndex>,
}

/// Where a version's asset index is found.
#[derive(Clone, Debug)]
pub struct AssetIndex {
    pub id: String,
    pub sha1: String,
    pub size: u64,
    pub total_size: u64,
    pub url: String,
}

/// One object of an asset index: its content hash and size.
#[derive(Clone, Debug)]
pub struct AssetObject {
    pub hash: String,
    pub size: u64,
}

/// The archives a version offers.
#[derive(Clone, Debug)]
pub struct Downloads {
    pub client: Option<DownloadInfo>,
    pub server: Option<DownloadInfo>,
}

/// One downloadable archive.
#[derive(Clone, Debug)]
pub struct DownloadInfo {
    pub sha1: String,
    pub size: u64,
    pub url: String,
}

/// What can go wrong in the version pipeline.
#[derive(Clone, Debug)]
pub enum AssetError {
    /// A request failed in transport.
    Network(String),
    /// A response did not have the expected shape.
    Parse(String),
    /// The manifest lists no version with this id.
    VersionNotFound(String),
    /// The version offers no client archive.
    ClientUnavailable,
    /// A filesystem operation failed.
    Io(String),
    /// The archive is corrupt or unreadable.
    Archive(String),
    /// Streaming the archive to disk failed.
    Download(String),
}

/// The first position in `versions` whose id is `id`, if any.
pub open spec fn first_version_index(versions: Seq<VersionInfo>, id: Seq<char>) -> Option<int>
    decreases versions.len(),
{
    if versions.len() == 0 {
        None
    } else {
        match first_version_index(versions.drop_last(), id) {
            Some(i) => Some(i),
            None => if versions.last().id@ == id {
                Some(versions.len() - 1)
            } else {
                None
            },
        }
    }
}

/// Resolving an id finds a version exactly when the manifest lists that id:
/// the summary found carries the id and comes first among those that do;
/// when none is found, no version carries it.
pub proof fn lemma_resolution_is_exact(versions: Seq<VersionInfo>, id: Seq<char>)
    ensures
        match first_version_index(versions, id) {
            Some(i) => 0 <= i < versions.len() && versions[i].id@ == id && forall|j: int|
                0 <= j < i ==> (#[trigger] versions[j]).id@ != id,
            None => forall|j: int| 0 <= j < versions.len() ==> (#[trigger] versions[j]).id@ != id,
        },
    decreases versions.len(),
{
    if versions.len() > 0 {
        let p = versions.drop_last();
        lemma_resolution_is_exact(p, id);
        assert forall|j: int| 0 <= j < p.len() implies #[trigger] p[j] == versions[j] by {}
        match first_version_index(p, id) {
            Some(i) => {
                assert(p[i] == versions[i]);
                assert forall|j: int| 0 <= j < i implies (#[trigger] versions[j]).id@ != id by {
                    assert(p[j] == versions[j]);
                }
            },
            None => {
                assert forall|j: int| 0 <= j < versions.len() - 1 implies (#[trigger] versions[j]).id@ != id by {
                    assert(p[j] == versions[j]);
                }
            },
        }
    }
}

proof fn lemma_first_version_prefix(versions: Seq<VersionInfo>, k: int, id: Seq<char>)
    requires
        0 <= k <= versions.len(),
        first_version_index(versions.take(k), id) is Some,
    ensures
        first_version_index(versions, id) == first_version_index(versions.take(k), id),
    decreases versions.len(),
{
    if k < versions.len() {
        assert(versions.drop_last().take(k) == versions.take(k));
        lemma_first_version_prefix(versions.drop_last(), k, id);
    } else {
        assert(versions.take(k) == versions);
    }
}

/// The summary in `manifest` whose id is exactly `version_id` (the first,
/// should two share it); `VersionNotFound` when there is none.
pub fn find_version<'a>(manifest: &'a VersionManifest, version_id: &str) -> (r: Result<&'a VersionInfo, AssetError>)
    ensures
        match first_version_index(manifest.versions@, version_id@) {
            Some(i) => r is Ok && *r->Ok_0 == manifest.versions@[i],
            None => r matches Err(AssetError::VersionNotFound(s)) && s@ == version_id@,
        },
{
    let wanted = version_id.to_string();
    let mut i: usize = 0;
    while i < manifest.versions.len()
        invariant
            i <= manifest.versions@.len(),
            wanted@ == version_id@,
            first_version_index(manifest.versions@.take(i as int), version_id@) is None,
        decreases manifest.versions@.len() - i,
    {
        let v = &manifest.versions[i];
        assert(manifest.versions@.take(i + 1).drop_last() == manifest.versions@.take(i as int));
        if v.id == wanted {
            proof {
                lemma_first_version_prefix(manifest.versions@, i + 1, version_id@);
            }
            return Ok(v);
        }
        i = i + 1;
    }
    assert(manifest.versions@.take(i as int) == manifest.versions@);
    Err(AssetError::VersionNotFound(wanted))
}

/// The summary of the latest release named by the manifest.
pub fn latest_release<'a>(manifest: &'a VersionManifest) -> (r: Result<&'a VersionInfo, AssetError>)
    ensures
        match first_version_index(manifest.versions@, manifest.latest.release@) {
            Some(i) => r is Ok && *r->Ok_0 == manifest.versions@[i],
            None => r matches Err(AssetError::VersionNotFound(s)) && s@ == manifest.latest.release@,
        },
{
    find_version(manifest, manifest.latest.release.as_str())
}

/// The client archive of a version; `ClientUnavailable` when it offers none.
pub fn client_download<'a>(details: &'a VersionDetails) -> (r: Result<&'a DownloadInfo, AssetError>)
    ensures
        match details.downloads.client {
            Some(c) => r is Ok && *r->Ok_0 == c,
            None => r matches Err(AssetError::ClientUnavailable),
        },
{
    match &details.downloads.client {
        Some(c) => Ok(c),
        None => Err(AssetError::ClientUnavailable),
    }
}

/// The extension of cached archive files.
pub open spec fn archive_extension() -> Seq<char> {
    seq!['j', 'a', 'r']
}

/// The file name under which the archive of version `version_id` is cached:
/// the id followed by `.jar`.
pub fn archive_file_name(version_id: &str) -> (r: String)
    ensures
        r@ == version_id@ + seq!['.'] + archive_extension(),
{
    let name = version_id.to_string().concat(".jar");
    proof {
        reveal_strlit(".jar");
    }
    assert(name@ =~= version_id@ + seq!['.'] + archive_extension());
    name
}

/// Whether a file of the scratch directory is a cached archive: its
/// extension is exactly `jar`.
pub fn is_cached_archive(file_name: &str) -> (r: bool)
    ensures
        r == exists|i: int| is_extension_dot(file_name@, i) && #[trigger] file_name@.subrange(i + 1, file_name@.len() as int)
            == archive_extension(),
{
    match extension_start(file_name) {
        None => false,
        Some(s) => {
            let n = file_name.unicode_len();
            let r = n - s == 3 && file_name.get_char(s) == 'j' && file_name.get_char(s + 1) == 'a'
                && file_name.get_char(s + 2) == 'r';
            proof {
                let d = s - 1;
                let ext = file_name@.subrange(s as int, n as int);
                if r {
                    assert(ext =~= archive_extension());
                    assert(is_extension_dot(file_name@, d) && file_name@.subrange(d + 1, file_name@.len() as int) == archive_extension());
                }
                if exists|i: int| is_extension_dot(file_name@, i) && #[trigger] file_name@.subrange(i + 1, file_name@.len() as int)
                    == archive_extension() {
                    let e = choose|i: int| is_extension_dot(file_name@, i) && #[trigger] file_name@.subrange(i + 1, file_name@.len() as int)
                        == archive_extension();
                    if e < d {
                        assert(file_name@[d] == '.');
                    } else if e > d {
                        assert(file_name@[e] == '.');
                    }
                    assert(e == d);
                    assert(ext[0] == file_name@[s as int] && ext[1] == file_name@[s + 1] && ext[2] == file_name@[s + 2]);
                }
            }
            r
        },
    }
}

/// The whole-number percentage of `downloaded` out of `total`, rounded
/// down; none when the total is unknown (zero). It saturates at the largest
/// `u32`.
pub open spec fn percent_of(downloaded: u64, total: u64) -> Option<u32> {
    if total == 0 {
        None
    } else if (downloaded as int) * 100 / (total as int) > u32::MAX {
        Some(u32::MAX)
    } else {
        Some(((downloaded as int) * 100 / (total as int)) as u32)
    }
}

/// The progress of a download as a percentage, when the total is known.
pub fn progress_percent(downloaded: u64, total: u64) -> (r: Option<u32>)
    ensures
        r == percent_of(downloaded, total),
{
    if total == 0 {
        return None;
    }
    let scaled: u128 = (downloaded as u128) * 100;
    let p: u128 = scaled / (total as u128);
    if p > u32::MAX as u128 {
        Some(u32::MAX)
    } else {
        Some(p as u32)
    }
}

/// The running state of one archive download: bytes received so far and
/// the total the server announced (zero when unknown).
#[derive(Clone, Copy, Debug)]
pub struct DownloadProgress {
    pub downloaded: u64,
    pub total: u64,
}

impl DownloadProgress {
    /// A download that has received nothing yet.
    pub fn new(total: u64) -> (r: Self)
        ensures
            r.downloaded == 0,
            r.total == total,
    {
        DownloadProgress { downloaded: 0, total }
    }

    /// Counts a received chunk of `len` bytes and gives the percentage to
    /// report, when the total is known.
    pub fn record_chunk(&mut self, len: u64) -> (r: Option<u32>)
        requires
            old(self).downloaded + len <= u64::MAX,
        ensures
            final(self).downloaded == old(self).downloaded + len,
            final(self).total == old(self).total,
            r == percent_of(final(self).downloaded, final(self).total),
    {
        self.downloaded = self.downloaded + len;
        progress_percent(self.downloaded, self.total)
    }
}

/// The host that serves asset objects by content hash.
pub open spec fn resource_host() -> Seq<char> {
    "https://resources.download.minecraft.net/"@
}

/// The asset-index key of the localization resource.
pub open spec fn localization_key() -> Seq<char> {
    "minecraft/lang/zh_cn.json"@
}

/// The URL of an asset object: the host, the first two characters of the
/// hash, `/`, and the whole hash.
pub open spec fn resource_url_of(hash: Seq<char>) -> Seq<char> {
    resource_host() + hash.subrange(0, 2) + "/"@ + hash
}

/// The URL of the asset object with content hash `hash`; none when the hash
/// is too short to shard.
pub fn resource_url(hash: &str) -> (r: Option<String>)
    ensures
        hash@.len() >= 2 ==> r is Some && r->Some_0@ == resource_url_of(hash@),
        hash@.len() < 2 ==> r is None,
{
    let n = hash.unicode_len();
    if n < 2 {
        return None;
    }
    let shard = hash.substring_char(0, 2);
    let url = "https://resources.download.minecraft.net/".to_string().concat(shard).concat("/").concat(hash);
    Some(url)
}

/// The first position of `objects` whose key is `key`, if any.
pub open spec fn first_object_index(objects: Seq<(String, AssetObject)>, key: Seq<char>) -> Option<int>
    decreases objects.len(),
{
    if objects.len() == 0 {
        None
    } else {
        match first_object_index(objects.drop_last(), key) {
            Some(i) => Some(i),
            None => if objects.last().0@ == key {
                Some(objects.len() - 1)
            } else {
                None
            },
        }
    }
}

proof fn lemma_first_object_prefix(objects: Seq<(String, AssetObject)>, k: int, key: Seq<char>)
    requires
        0 <= k <= objects.len(),
        first_object_index(objects.take(k), key) is Some,
    ensures
        first_object_index(objects, key) == first_object_index(objects.take(k), key),
    decreases objects.len(),
{
    if k < objects.len() {
        assert(objects.drop_last().take(k) == objects.take(k));
        lemma_first_object_prefix(objects.drop_last(), k, key);
    } else {
        assert(objects.take(k) == objects);
    }
}

/// No key appears twice among an asset index's objects, as in the JSON
/// object they are read from.
pub open spec fn keys_unique(objects: Seq<(String, AssetObject)>) -> bool {
    forall|i: int, j: int| 0 <= i < j < objects.len() ==> (#[trigger] objects[i]).0@ != (#[trigger] objects[j]).0@
}

/// The first entry with a key carries that key, and no earlier one does;
/// with unique keys it is the only entry that carries it.
pub proof fn lemma_object_lookup_is_exact(objects: Seq<(String, AssetObject)>, key: Seq<char>)
    ensures
        match first_object_index(objects, key) {
            Some(i) => 0 <= i < objects.len() && objects[i].0@ == key && (keys_unique(objects) ==> forall|j: int|
                0 <= j < objects.len() && (#[trigger] objects[j]).0@ == key ==> j == i),
            None => forall|j: int| 0 <= j < objects.len() ==> (#[trigger] objects[j]).0@ != key,
        },
    decreases objects.len(),
{
    if objects.len() > 0 {
        let p = objects.drop_last();
        lemma_object_lookup_is_exact(p, key);
        assert forall|j: int| 0 <= j < p.len() implies #[trigger] p[j] == objects[j] by {}
        match first_object_index(p, key) {
            Some(i) => {
                assert(p[i] == objects[i]);
                if keys_unique(objects) {
                    assert forall|j: int| 0 <= j < objects.len() && (#[trigger] objects[j]).0@ == key implies j == i by {
                        if j < i {
                            assert(objects[j].0@ != objects[i].0@);
                        } else if j > i {
                            assert(objects[i].0@ != objects[j].0@);
                        }
                    }
                }
            },
            None => {
                assert forall|j: int| 0 <= j < objects.len() - 1 implies (#[trigger] objects[j]).0@ != key by {
                    assert(p[j] == objects[j]);
                }
            },
        }
    }
}

/// When the asset index holds no localization resource, the lookup finds
/// nothing, so the localization step after the index is a skip and no
/// resource is fetched or written.
pub proof fn lemma_absent_localization_is_skipped(objects: Seq<(String, AssetObject)>)
    requires
        forall|i: int| 0 <= i < objects.len() ==> (#[trigger] objects[i]).0@ != localization_key(),
    ensures
        first_object_index(objects, localization_key()) is None,
{
    lemma_object_lookup_is_exact(objects, localization_key());
}

/// The object stored under `key` in an asset index's objects: the first
/// entry with that key, which is the only one when keys are unique.
pub fn find_asset<'a>(objects: &'a Vec<(String, AssetObject)>, key: &str) -> (r: Option<&'a AssetObject>)
    ensures
        match first_object_index(objects@, key@) {
            Some(i) => r is Some && *r->Some_0 == objects@[i].1,
            None => r is None,
        },
        keys_unique(objects@) ==> forall|i: int|
            0 <= i < objects@.len() && (#[trigger] objects@[i]).0@ == key@ ==> r == Some(&objects@[i].1),
        (forall|i: int| 0 <= i < objects@.len() ==> (#[trigger] objects@[i]).0@ != key@) ==> r is None,
{
    proof {
        lemma_object_lookup_is_exact(objects@, key@);
    }
    let wanted = key.to_string();
    let mut i: usize = 0;
    while i < objects.len()
        invariant
            i <= objects@.len(),
            wanted@ == key@,
            first_object_index(objects@.take(i as int), key@) is None,
        decreases objects@.len() - i,
    {
        let entry = &objects[i];
        assert(objects@.take(i + 1).drop_last() == objects@.take(i as int));
        if entry.0 == wanted {
            proof {
                lemma_first_object_prefix(objects@, i + 1, key@);
            }
            return Some(&entry.1);
        }
        i = i + 1;
    }
    assert(objects@.take(i as int) == objects@);
    None
}

/// Why the localization resource was not fetched, though nothing failed.
#[derive(PartialEq, Eq, Structural, Clone, Copy, Debug)]
pub enum SkipReason {
    /// The version details name no asset index.
    NoAssetIndex,
    /// The asset index holds no localization resource.
    NotInIndex,
}

/// The next step of the best-effort localization fetch.
#[derive(Debug)]
pub enum LocalizationStep {
    /// Fetch the asset index at this URL.
    FetchIndex(String),
    /// Fetch the resource at this URL and write it to both destinations.
    FetchResource(String),
    /// Stop: there is nothing to fetch.
    Skip(SkipReason),
    /// Stop: the index names the resource in a form that cannot be fetched.
    Fail(AssetError),
}

/// How the localization fetch ended. It never fails the pipeline.
#[derive(Debug)]
pub enum LocalizationOutcome {
    Saved,
    Skipped(SkipReason),
    Failed(AssetError),
}

/// The step after the version details were fetched again: the asset index,
/// or a skip when the details name none.
pub fn localization_after_details(details: &VersionDetails) -> (r: LocalizationStep)
    ensures
        match details.asset_index {
            Some(index) => r matches LocalizationStep::FetchIndex(u) && u@ == index.url@,
            None => r matches LocalizationStep::Skip(SkipReason::NoAssetIndex),
        },
{
    match &details.asset_index {
        Some(index) => LocalizationStep::FetchIndex(index.url.clone()),
        None => LocalizationStep::Skip(SkipReason::NoAssetIndex),
    }
}

/// The step after the asset index was fetched: the resource under the
/// localization key, a skip when the index has no such key, or a failure
/// when its hash is too short to locate it.
pub fn localization_after_index(objects: &Vec<(String, AssetObject)>) -> (r: LocalizationStep)
    ensures
        match first_object_index(objects@, localization_key()) {
            None => r matches LocalizationStep::Skip(SkipReason::NotInIndex),
            Some(i) => if objects@[i].1.hash@.len() >= 2 {
                r matches LocalizationStep::FetchResource(u) && u@ == resource_url_of(objects@[i].1.hash@)
            } else {
                r matches LocalizationStep::Fail(AssetError::Parse(_))
            },
        },
{
    match find_asset(objects, "minecraft/lang/zh_cn.json") {
        None => LocalizationStep::Skip(SkipReason::NotInIndex),
        Some(asset) => match resource_url(asset.hash.as_str()) {
            Some(url) => LocalizationStep::FetchResource(url),
            None => LocalizationStep::Fail(AssetError::Parse(asset.hash.clone())),
        },
    }
}

/// The two paths, relative to the output directory, that receive a copy of
/// the localization resource.
pub fn localization_destinations() -> (r: (String, String))
    ensures
        r.0@ == ".little100/map.json"@,
        r.1@ == "assets/minecraft/lang/zh_cn.json"@,
{
    (".little100/map.json".to_string(), "assets/minecraft/lang/zh_cn.json".to_string())
}

} // verus!
