//! Configuration of the recorder: storage knobs, per-camera entries, API
//! switches, and the validation that rejects zero-valued knobs at startup.

use vstd::prelude::*;

use crate::error::NvrError;

verus! {

/// Top-level configuration.
#[derive(Debug, Clone)]
pub struct Config {
    /// Storage configuration.
    pub storage: StorageConfig,
    /// List of cameras to record.
    pub cameras: Vec<CameraConfig>,
    /// HTTP API configuration.
    pub api: ApiConfig,
}

/// HTTP API configuration.
#[derive(Debug, Clone)]
pub struct ApiConfig {
    /// Whether to enable the HTTP API.
    pub enabled: bool,
    /// Port to listen on.
    pub port: u16,
}

/// Storage parameters for the global shared pool.
#[derive(Debug, Clone)]
pub struct StorageConfig {
    /// Base directory where pool files are stored.
    pub base_path: String,
    /// Size of each pre-allocated pool file in megabytes.
    pub chunk_size_mb: u64,
    /// Total number of pool files in the ring buffer.
    pub max_pools: usize,
    /// Duration of a single video segment in seconds.
    pub segment_duration_secs: u64,
    /// Bounded channel capacity for the global writer queue.
    pub writer_queue_size: usize,
}

/// Per-camera configuration.
#[derive(Debug, Clone)]
pub struct CameraConfig {
    /// Unique identifier used for record and index keys.
    pub id: String,
    /// Human-readable label shown in status output.
    pub name: String,
    /// RTSP (or HTTP) URL of the camera stream.
    pub url: String,
    /// Reconnection attempt limit (0 = unlimited).
    pub max_reconnect_attempts: u32,
}

pub fn default_api_enabled() -> (r: bool)
    ensures
        r == true,
{
    true
}

pub fn default_api_port() -> (r: u16)
    ensures
        r == 8080,
{
    8080
}

pub fn default_chunk_size_mb() -> (r: u64)
    ensures
        r == 512,
{
    512
}

pub fn default_max_chunks() -> (r: usize)
    ensures
        r == 20,
{
    20
}

pub fn default_segment_duration() -> (r: u64)
    ensures
        r == 60,
{
    60
}

pub fn default_writer_queue() -> (r: usize)
    ensures
        r == 256,
{
    256
}

impl Default for ApiConfig {
    fn default() -> (r: Self)
        ensures
            r.enabled == true,
            r.port == 8080,
    {
        ApiConfig { enabled: default_api_enabled(), port: default_api_port() }
    }
}

impl Config {
    /// All knobs that must be non-zero are non-zero and at least one camera
    /// is configured.
    pub open spec fn valid(self) -> bool {
        &&& self.cameras.len() > 0
        &&& self.storage.chunk_size_mb > 0
        &&& self.storage.max_pools > 0
        &&& self.storage.segment_duration_secs > 0
        &&& self.storage.writer_queue_size > 0
    }

    /// Reject a configuration with an empty camera list or a zero-valued
    /// storage knob.
    pub fn validate(&self) -> (r: Result<(), NvrError>)
        ensures
            r is Ok <==> self.valid(),
            r matches Err(e) ==> e is Config,
    {
        if self.cameras.len() == 0 {
            return Err(NvrError::Config("no cameras defined".to_owned()));
        }
        if self.storage.chunk_size_mb == 0 {
            return Err(NvrError::Config("chunk_size_mb must be > 0".to_owned()));
        }
        if self.storage.max_pools == 0 {
            return Err(NvrError::Config("max_pools must be > 0".to_owned()));
        }
        if self.storage.segment_duration_secs == 0 {
            return Err(NvrError::Config("segment_duration_secs must be > 0".to_owned()));
        }
        if self.storage.writer_queue_size == 0 {
            return Err(NvrError::Config("writer_queue_size must be > 0".to_owned()));
        }
        Ok(())
    }
}

} // verus!
