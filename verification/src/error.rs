//! Error type shared by the recorder core.

use vstd::prelude::*;

verus! {

/// Error kinds surfaced by the recorder core. Variants that concern the
/// capture and transport edges (`GStreamer`, `Io`, `CameraConnection`) are
/// constructed by the embedding program; the storage core itself only
/// produces `Config`, `Storage` and `Index` errors.
#[derive(Debug, Clone)]
pub enum NvrError {
    Config(String),
    GStreamer(String),
    Io(String),
    CameraConnection { id: String, reason: String },
    Storage(String),
    Index(String),
    CameraNotFound { id: String },
}

} // verus!
