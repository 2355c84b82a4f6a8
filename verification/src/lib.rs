//! Sidecar resolution and format engine.
//!
//! The library associates metadata files ("sidecars") with source images,
//! encodes sidecar payloads in several on-disk formats behind one codec
//! contract, and provides bulk validation, statistics, cleanup and format
//! conversion over a directory snapshot.

pub mod binformat;
pub mod codec;
pub mod fsmodel;
pub mod jsontext;
pub mod jsonutil;
pub mod manager;
pub mod strutil;
pub mod types;
pub mod validator;
pub mod value;

pub use codec::{SidecarFormat, FormatManager, SidecarSerializer, SerializationError,
    JsonSerializer, BinarySerializer, RkyvSerializer};
pub use fsmodel::{FsEntry, FsSnapshot};
pub use jsonutil::{JsonUtils, SidecarOperations};
pub use manager::{SidecarManager, ConversionJob};
pub use types::{OperationType, SidecarInfo, SymlinkInfo, ValidationResult, StatisticsResult,
    SidecarError};
pub use validator::{ParallelProcessor, FileRead};
pub use value::JsonValue;
