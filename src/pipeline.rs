use crate::versions::archive_file_name;
use crate::versions::client_download;
use crate::versions::find_version;
use crate::versions::first_version_index;
use crate::versions::AssetError;
use crate::versions::LocalizationOutcome;
use crate::versions::VersionDetails;
use crate::versions::VersionManifest;
use vstd::prelude::*;

verus! {

/// Where a run of the download-and-extract pipeline stands.
#[derive(PartialEq, Eq, Structural, Clone, Copy, Debug)]
pub enum Stage {
    FetchingManifest,
    FetchingDetails,
    CheckingArchive,
    Downloading,
    Extracting,
    Localizing,
    RemovingArchive,
    Finished,
}

/// What the surrounding code reports back after doing an action.
#[derive(Debug)]
pub enum PipelineEvent {
    ManifestFetched(Result<VersionManifest, AssetError>),
    DetailsFetched(Result<VersionDetails, AssetError>),
    /// Whether the archive file is already in the scratch directory.
    ArchiveChecked(bool),
    Downloaded(Result<(), AssetError>),
    Extracted(Result<(), AssetError>),
    Localized(LocalizationOutcome),
    ArchiveRemoved,
}

/// What the surrounding code is asked to do next.
#[derive(Debug)]
pub enum PipelineAction {
    FetchManifest,
    FetchDetails { url: String },
    CheckArchive { file_name: String },
    Download { url: String, file_name: String },
    Extract { file_name: String },
    FetchLocalization { details_url: String },
    RemoveArchive { file_name: String },
    Finish(Result<String, AssetError>),
}

/// The message of a successful run for version `id`.
pub open spec fn success_message(id: Seq<char>) -> Seq<char> {
    "Successfully extracted assets from version "@ + id
}

/// The event that a stage waits for.
pub open spec fn expects(stage: Stage, e: PipelineEvent) -> bool {
    match e {
        PipelineEvent::ManifestFetched(_) => stage == Stage::FetchingManifest,
        PipelineEvent::DetailsFetched(_) => stage == Stage::FetchingDetails,
        PipelineEvent::ArchiveChecked(_) => stage == Stage::CheckingArchive,
        PipelineEvent::Downloaded(_) => stage == Stage::Downloading,
        PipelineEvent::Extracted(_) => stage == Stage::Extracting,
        PipelineEvent::Localized(_) => stage == Stage::Localizing,
        PipelineEvent::ArchiveRemoved => stage == Stage::RemovingArchive,
    }
}

/// The stage a run moves to on event `e`, for version `id`.
pub open spec fn stage_after(keep_cache: bool, id: Seq<char>, e: PipelineEvent) -> Stage {
    match e {
        PipelineEvent::ManifestFetched(Ok(m)) => if first_version_index(m.versions@, id) is Some {
            Stage::FetchingDetails
        } else {
            Stage::Finished
        },
        PipelineEvent::DetailsFetched(Ok(d)) => if d.downloads.client is Some {
            Stage::CheckingArchive
        } else {
            Stage::Finished
        },
        PipelineEvent::ArchiveChecked(present) => if present {
            Stage::Extracting
        } else {
            Stage::Downloading
        },
        PipelineEvent::Downloaded(Ok(_)) => Stage::Extracting,
        PipelineEvent::Extracted(Ok(_)) => Stage::Localizing,
        PipelineEvent::Localized(_) => if keep_cache {
            Stage::Finished
        } else {
            Stage::RemovingArchive
        },
        _ => Stage::Finished,
    }
}

/// A run ends in success exactly on these events: the localization fetch
/// ended, however it ended, and the archive is kept; or the archive was
/// removed.
pub open spec fn ends_in_success(keep_cache: bool, e: PipelineEvent) -> bool {
    match e {
        PipelineEvent::Localized(_) => keep_cache,
        PipelineEvent::ArchiveRemoved => true,
        _ => false,
    }
}

/// The error a run ends with on event `e`, for version `id`, when it fails.
pub open spec fn failure_of(id: Seq<char>, e: PipelineEvent, err: AssetError) -> bool {
    match e {
        PipelineEvent::ManifestFetched(Ok(_)) => err matches AssetError::VersionNotFound(s) && s@ == id,
        PipelineEvent::ManifestFetched(Err(x)) => err == x,
        PipelineEvent::DetailsFetched(Ok(_)) => err matches AssetError::ClientUnavailable,
        PipelineEvent::DetailsFetched(Err(x)) => err == x,
        PipelineEvent::Downloaded(Err(x)) => err == x,
        PipelineEvent::Extracted(Err(x)) => err == x,
        _ => false,
    }
}

/// An archive found in the scratch directory is not downloaded: the run
/// goes straight to extraction, and no later stage leads back to a
/// download. A run that keeps the cache ends without removing the archive,
/// so the next run for the same version finds it.
pub proof fn lemma_present_archive_is_not_downloaded(keep_cache: bool, id: Seq<char>, e: PipelineEvent)
    ensures
        stage_after(keep_cache, id, PipelineEvent::ArchiveChecked(true)) == Stage::Extracting,
        (expects(Stage::Extracting, e) || expects(Stage::Localizing, e) || expects(Stage::RemovingArchive, e))
            ==> stage_after(keep_cache, id, e) != Stage::Downloading,
        keep_cache && expects(Stage::Localizing, e) ==> stage_after(keep_cache, id, e) == Stage::Finished
            && ends_in_success(keep_cache, e),
{
}

/// The localization fetch never fails a run: whatever its outcome, a
/// skip included, the run goes on to success, directly when the archive is
/// kept or once it was removed.
pub proof fn lemma_localization_never_fails_run(
    keep_cache: bool,
    id: Seq<char>,
    outcome: LocalizationOutcome,
    err: AssetError,
)
    ensures
        !failure_of(id, PipelineEvent::Localized(outcome), err),
        keep_cache ==> ends_in_success(keep_cache, PipelineEvent::Localized(outcome)),
        !keep_cache ==> stage_after(keep_cache, id, PipelineEvent::Localized(outcome)) == Stage::RemovingArchive
            && ends_in_success(keep_cache, PipelineEvent::ArchiveRemoved),
{
}

/// A failed download ends the run with exactly that error; a later run
/// whose download succeeds and that does not keep the cache goes on to
/// extraction, and removes the archive before it ends in success.
pub proof fn lemma_failed_download_then_clean_retry(id: Seq<char>, err: AssetError, other: AssetError, o: LocalizationOutcome)
    ensures
        stage_after(false, id, PipelineEvent::Downloaded(Err(err))) == Stage::Finished,
        !ends_in_success(false, PipelineEvent::Downloaded(Err(err))),
        failure_of(id, PipelineEvent::Downloaded(Err(err)), err),
        failure_of(id, PipelineEvent::Downloaded(Err(err)), other) ==> other == err,
        stage_after(false, id, PipelineEvent::Downloaded(Ok(()))) == Stage::Extracting,
        stage_after(false, id, PipelineEvent::Localized(o)) == Stage::RemovingArchive,
        ends_in_success(false, PipelineEvent::ArchiveRemoved),
{
}

/// One run of the pipeline that resolves a version, brings its archive
/// into the scratch directory unless it is there, extracts its asset tree,
/// tries the localization fetch and removes the archive unless it is kept.
#[derive(Debug)]
pub struct VersionPipeline {
    version_id: String,
    keep_cache: bool,
    stage: Stage,
    details_url: String,
    download_url: String,
    archive_name: String,
}

impl VersionPipeline {
    /// The stage the run stands at.
    pub closed spec fn stage(&self) -> Stage {
        self.stage
    }

    /// Whether the archive is kept in the scratch directory at the end.
    pub closed spec fn keep_cache(&self) -> bool {
        self.keep_cache
    }

    /// The version asked for.
    pub closed spec fn version_id(&self) -> Seq<char> {
        self.version_id@
    }

    /// The URL of the resolved version's details.
    pub closed spec fn details_url(&self) -> Seq<char> {
        self.details_url@
    }

    /// The URL of the client archive.
    pub closed spec fn download_url(&self) -> Seq<char> {
        self.download_url@
    }

    /// The file name of the cached archive in the scratch directory.
    pub closed spec fn archive_name(&self) -> Seq<char> {
        self.archive_name@
    }

    /// A run for `version_id`, and its first action: fetch the manifest.
    pub fn start(version_id: &str, keep_cache: bool) -> (r: (Self, PipelineAction))
        ensures
            r.0.stage() == Stage::FetchingManifest,
            r.0.keep_cache() == keep_cache,
            r.0.version_id() == version_id@,
            r.1 matches PipelineAction::FetchManifest,
    {
        (
            VersionPipeline {
                version_id: version_id.to_string(),
                keep_cache,
                stage: Stage::FetchingManifest,
                details_url: String::new(),
                download_url: String::new(),
                archive_name: String::new(),
            },
            PipelineAction::FetchManifest,
        )
    }

    /// Whether the run waits for event `e`.
    pub fn accepts(&self, e: &PipelineEvent) -> (r: bool)
        ensures
            r == expects(self.stage(), *e),
    {
        match e {
            PipelineEvent::ManifestFetched(_) => self.stage == Stage::FetchingManifest,
            PipelineEvent::DetailsFetched(_) => self.stage == Stage::FetchingDetails,
            PipelineEvent::ArchiveChecked(_) => self.stage == Stage::CheckingArchive,
            PipelineEvent::Downloaded(_) => self.stage == Stage::Downloading,
            PipelineEvent::Extracted(_) => self.stage == Stage::Extracting,
            PipelineEvent::Localized(_) => self.stage == Stage::Localizing,
            PipelineEvent::ArchiveRemoved => self.stage == Stage::RemovingArchive,
        }
    }

    /// Takes in what the last action gave and says what to do next.
    pub fn step(&mut self, e: PipelineEvent) -> (r: PipelineAction)
        requires
            expects(old(self).stage(), e),
        ensures
            final(self).stage() == stage_after(old(self).keep_cache(), old(self).version_id(), e),
            final(self).keep_cache() == old(self).keep_cache(),
            final(self).version_id() == old(self).version_id(),
            (r is Finish) <==> final(self).stage() == Stage::Finished,
            ends_in_success(old(self).keep_cache(), e) ==> (r matches PipelineAction::Finish(Ok(m)) && m@
                == success_message(old(self).version_id())),
            (r matches PipelineAction::Finish(Err(x))) <==> (final(self).stage() == Stage::Finished
                && !ends_in_success(old(self).keep_cache(), e)),
            r matches PipelineAction::Finish(Err(x)) ==> failure_of(old(self).version_id(), e, x),
            match e {
                PipelineEvent::ManifestFetched(Ok(m)) => match first_version_index(m.versions@, old(self).version_id()) {
                    Some(i) => r matches PipelineAction::FetchDetails { url } && url@ == m.versions@[i].url@
                        && final(self).details_url() == url@,
                    None => true,
                },
                PipelineEvent::DetailsFetched(Ok(d)) => match d.downloads.client {
                    Some(c) => r matches PipelineAction::CheckArchive { file_name } && file_name@ == d.id@
                        + seq!['.', 'j', 'a', 'r'] && final(self).archive_name() == file_name@
                        && final(self).download_url() == c.url@ && final(self).details_url()
                        == old(self).details_url(),
                    None => true,
                },
                PipelineEvent::ArchiveChecked(true) => r matches PipelineAction::Extract { file_name }
                    && file_name@ == old(self).archive_name(),
                PipelineEvent::ArchiveChecked(false) => r matches PipelineAction::Download { url, file_name }
                    && url@ == old(self).download_url() && file_name@ == old(self).archive_name(),
                PipelineEvent::Downloaded(Ok(_)) => r matches PipelineAction::Extract { file_name } && file_name@
                    == old(self).archive_name(),
                PipelineEvent::Extracted(Ok(_)) => r matches PipelineAction::FetchLocalization { details_url }
                    && details_url@ == old(self).details_url(),
                PipelineEvent::Localized(_) => !old(self).keep_cache() ==> (r matches PipelineAction::RemoveArchive {
                    file_name,
                } && file_name@ == old(self).archive_name()),
                _ => true,
            },
            e !is ManifestFetched && e !is DetailsFetched ==> final(self).details_url() == old(self).details_url()
                && final(self).download_url() == old(self).download_url() && final(self).archive_name()
                == old(self).archive_name(),
    {
        match e {
            PipelineEvent::ManifestFetched(Err(x)) => {
                self.stage = Stage::Finished;
                PipelineAction::Finish(Err(x))
            },
            PipelineEvent::ManifestFetched(Ok(m)) => match find_version(&m, self.version_id.as_str()) {
                Ok(v) => {
                    let url = v.url.clone();
                    self.details_url = v.url.clone();
                    self.stage = Stage::FetchingDetails;
                    PipelineAction::FetchDetails { url }
                },
                Err(x) => {
                    self.stage = Stage::Finished;
                    PipelineAction::Finish(Err(x))
                },
            },
            PipelineEvent::DetailsFetched(Err(x)) => {
                self.stage = Stage::Finished;
                PipelineAction::Finish(Err(x))
            },
            PipelineEvent::DetailsFetched(Ok(d)) => match client_download(&d) {
                Ok(c) => {
                    self.download_url = c.url.clone();
                    let name = archive_file_name(d.id.as_str());
                    self.archive_name = name.clone();
                    self.stage = Stage::CheckingArchive;
                    PipelineAction::CheckArchive { file_name: name }
                },
                Err(x) => {
                    self.stage = Stage::Finished;
                    PipelineAction::Finish(Err(x))
                },
            },
            PipelineEvent::ArchiveChecked(present) => {
                if present {
                    self.stage = Stage::Extracting;
                    PipelineAction::Extract { file_name: self.archive_name.clone() }
                } else {
                    self.stage = Stage::Downloading;
                    PipelineAction::Download { url: self.download_url.clone(), file_name: self.archive_name.clone() }
                }
            },
            PipelineEvent::Downloaded(Err(x)) => {
                self.stage = Stage::Finished;
                PipelineAction::Finish(Err(x))
            },
            PipelineEvent::Downloaded(Ok(_)) => {
                self.stage = Stage::Extracting;
                PipelineAction::Extract { file_name: self.archive_name.clone() }
            },
            PipelineEvent::Extracted(Err(x)) => {
                self.stage = Stage::Finished;
                PipelineAction::Finish(Err(x))
            },
            PipelineEvent::Extracted(Ok(_)) => {
                self.stage = Stage::Localizing;
                PipelineAction::FetchLocalization { details_url: self.details_url.clone() }
            },
            PipelineEvent::Localized(_) => {
                if self.keep_cache {
                    self.stage = Stage::Finished;
                    PipelineAction::Finish(Ok(self.success()))
                } else {
                    self.stage = Stage::RemovingArchive;
                    PipelineAction::RemoveArchive { file_name: self.archive_name.clone() }
                }
            },
            PipelineEvent::ArchiveRemoved => {
                self.stage = Stage::Finished;
                PipelineAction::Finish(Ok(self.success()))
            },
        }
    }

    fn success(&self) -> (r: String)
        ensures
            r@ == success_message(self.version_id()),
    {
        "Successfully extracted assets from version ".to_string().concat(self.version_id.as_str())
    }
}

} // verus!
