use vstd::prelude::*;

use crate::errors::PipelineError;

verus! {

/// The settings one `start` invocation runs with: an explicit, immutable
/// run configuration, passed whole into each scheduled run.
pub struct StartOpt {
    /// Path to the node directory being archived.
    pub path: String,
    /// Cron schedule of the publication runs.
    pub job_time: String,
    /// Whether the read-only distribution service runs.
    pub api: bool,
    /// Port of the distribution service.
    pub api_port: u16,
    /// Where local snapshots and the catalog document are stored.
    pub storage_path: String,
    /// Whether artifacts are published to the remote store.
    pub gcs: bool,
    /// Remote bucket name; required when `gcs` is set.
    pub gcs_bucket: Option<String>,
    /// Remote folder path; required when `gcs` is set.
    pub gcs_folder: Option<String>,
    /// Retention count: live artifacts kept per category.
    pub keep: usize,
}

impl StartOpt {
    /// The startup check of the destination settings.
    pub fn validate(&self) -> (r: Result<(), PipelineError>)
        ensures
            r is Err <==> self.gcs && (self.gcs_bucket is None || self.gcs_folder is None),
            r matches Err(e) ==> e == PipelineError::Config,
    {
        crate::pipeline::validate_destination(self.gcs, &self.gcs_bucket, &self.gcs_folder)
    }
}

/// The command the binary was invoked with.
pub enum Command {
    Start(StartOpt),
}

/// The parsed command line.
pub struct Opt {
    pub cmd: Command,
}

} // verus!
