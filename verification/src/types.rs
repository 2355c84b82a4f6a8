//! The directory model: operation kinds, symlink resolution results,
//! resolved sidecar records, validation outcomes, aggregate statistics,
//! and the error type.

use vstd::prelude::*;

verus! {

/// The closed set of operations a sidecar can record. An unknown token
/// maps to `Unknown` instead of failing: detecting the operation must
/// never abort a scan.
#[derive(Clone, Copy, PartialEq, Eq, Structural, Debug, Hash)]
pub enum OperationType {
    FaceDetection,
    ObjectDetection,
    BallDetection,
    QualityAssessment,
    GameDetection,
    Yolov8,
    Unified,
    Unknown,
}

impl OperationType {
    /// The fixed lowercase token of an operation.
    pub open spec fn token(self) -> Seq<char> {
        match self {
            OperationType::FaceDetection => "face_detection"@,
            OperationType::ObjectDetection => "object_detection"@,
            OperationType::BallDetection => "ball_detection"@,
            OperationType::QualityAssessment => "quality_assessment"@,
            OperationType::GameDetection => "game_detection"@,
            OperationType::Yolov8 => "yolov8"@,
            OperationType::Unified => "unified"@,
            OperationType::Unknown => "unknown"@,
        }
    }

    /// The operation a token names; anything unrecognized is `Unknown`.
    pub open spec fn from_token(s: Seq<char>) -> OperationType {
        if s == "face_detection"@ {
            OperationType::FaceDetection
        } else if s == "object_detection"@ {
            OperationType::ObjectDetection
        } else if s == "ball_detection"@ {
            OperationType::BallDetection
        } else if s == "quality_assessment"@ {
            OperationType::QualityAssessment
        } else if s == "game_detection"@ {
            OperationType::GameDetection
        } else if s == "yolov8"@ {
            OperationType::Yolov8
        } else if s == "unified"@ {
            OperationType::Unified
        } else {
            OperationType::Unknown
        }
    }

    pub fn as_str(&self) -> (r: &'static str)
        ensures
            r@ == self.token(),
    {
        match self {
            OperationType::FaceDetection => "face_detection",
            OperationType::ObjectDetection => "object_detection",
            OperationType::BallDetection => "ball_detection",
            OperationType::QualityAssessment => "quality_assessment",
            OperationType::GameDetection => "game_detection",
            OperationType::Yolov8 => "yolov8",
            OperationType::Unified => "unified",
            OperationType::Unknown => "unknown",
        }
    }

    pub fn from_str(s: &str) -> (r: Self)
        ensures
            r == Self::from_token(s@),
    {
        if crate::strutil::str_eq(s, "face_detection") {
            OperationType::FaceDetection
        } else if crate::strutil::str_eq(s, "object_detection") {
            OperationType::ObjectDetection
        } else if crate::strutil::str_eq(s, "ball_detection") {
            OperationType::BallDetection
        } else if crate::strutil::str_eq(s, "quality_assessment") {
            OperationType::QualityAssessment
        } else if crate::strutil::str_eq(s, "game_detection") {
            OperationType::GameDetection
        } else if crate::strutil::str_eq(s, "yolov8") {
            OperationType::Yolov8
        } else if crate::strutil::str_eq(s, "unified") {
            OperationType::Unified
        } else {
            OperationType::Unknown
        }
    }
}

/// What resolving a symlinked image found. A broken link is one whose
/// target did not exist at resolution time; it is recorded, not an error.
#[derive(Clone, Debug)]
pub struct SymlinkInfo {
    pub symlink_path: String,
    pub target_path: String,
    pub is_symlink: bool,
    pub broken: bool,
}

/// Relies on uuid::Uuid::new_v4 and its Display form: a fresh identifier
/// rendered as 36 hyphenated lowercase hexadecimal characters. Nothing
/// else is assumed of the value.
#[verifier::external_body]
pub(crate) fn fresh_id() -> (r: String)
    ensures
        r@.len() == 36,
{
    uuid::Uuid::new_v4().to_string()
}

/// Relies on chrono::Utc::now().to_rfc3339(): the current time as a
/// non-empty RFC 3339 string. Nothing else is assumed of the value.
#[verifier::external_body]
pub(crate) fn now_rfc3339() -> (r: String)
    ensures
        r@.len() > 0,
{
    chrono::Utc::now().to_rfc3339()
}

/// A resolved association between an image and its sidecar file. It is a
/// query-time projection: the persisted truth is the sidecar file's bytes.
#[derive(Clone, Debug)]
pub struct SidecarInfo {
    pub id: String,
    pub image_path: String,
    pub sidecar_path: String,
    pub operation: OperationType,
    pub symlink_info: Option<SymlinkInfo>,
    pub created_at: String,
    pub last_updated: String,
    pub data_size: u64,
    pub is_valid: bool,
}

impl SidecarInfo {
    /// A fresh record: not yet validated, no payload size.
    pub fn new(
        image_path: String,
        sidecar_path: String,
        operation: OperationType,
        symlink_info: Option<SymlinkInfo>,
    ) -> (r: Self)
        ensures
            r.image_path == image_path,
            r.sidecar_path == sidecar_path,
            r.operation == operation,
            r.symlink_info == symlink_info,
            r.data_size == 0,
            !r.is_valid,
            r.created_at == r.last_updated,
    {
        let now = now_rfc3339();
        let now2 = now.clone();
        SidecarInfo {
            id: fresh_id(),
            image_path,
            sidecar_path,
            operation,
            symlink_info,
            created_at: now,
            last_updated: now2,
            data_size: 0,
            is_valid: false,
        }
    }

    /// The per-operation processing time is not persisted in the record;
    /// there is none to report.
    pub fn get_processing_time(&self) -> (r: Option<u64>)
        ensures
            r is None,
    {
        None
    }

    pub fn get_success_status(&self) -> (r: bool)
        ensures
            r == self.is_valid,
    {
        self.is_valid
    }
}

/// The outcome of validating one candidate sidecar file. Exactly one is
/// produced per file scanned, failure or not; `processing_time` counts
/// microseconds.
#[derive(Clone, Debug)]
pub struct ValidationResult {
    pub file_path: String,
    pub is_valid: bool,
    pub error: Option<String>,
    pub processing_time: u64,
    pub file_size: u64,
    pub detection_count: u32,
    pub tool_name: Option<String>,
    pub operation_type: Option<OperationType>,
}

impl ValidationResult {
    pub fn new(file_path: String) -> (r: Self)
        ensures
            r.file_path == file_path,
            !r.is_valid,
            r.error is None,
            r.processing_time == 0,
            r.file_size == 0,
            r.detection_count == 0,
            r.tool_name is None,
            r.operation_type is None,
    {
        ValidationResult {
            file_path,
            is_valid: false,
            error: None,
            processing_time: 0,
            file_size: 0,
            detection_count: 0,
            tool_name: None,
            operation_type: None,
        }
    }

    pub fn success(file_path: String, processing_time: u64, file_size: u64) -> (r: Self)
        ensures
            r.file_path == file_path,
            r.is_valid,
            r.error is None,
            r.processing_time == processing_time,
            r.file_size == file_size,
            r.detection_count == 0,
            r.tool_name is None,
            r.operation_type is None,
    {
        ValidationResult {
            file_path,
            is_valid: true,
            error: None,
            processing_time,
            file_size,
            detection_count: 0,
            tool_name: None,
            operation_type: None,
        }
    }

    pub fn error(file_path: String, error: String, processing_time: u64) -> (r: Self)
        ensures
            r.file_path == file_path,
            !r.is_valid,
            r.error == Some(error),
            r.processing_time == processing_time,
            r.file_size == 0,
            r.detection_count == 0,
            r.tool_name is None,
            r.operation_type is None,
    {
        ValidationResult {
            file_path,
            is_valid: false,
            error: Some(error),
            processing_time,
            file_size: 0,
            detection_count: 0,
            tool_name: None,
            operation_type: None,
        }
    }
}

/// Aggregate statistics over a directory. `coverage_percentage` counts
/// hundredths of a percent, so full coverage is 10000; the per-operation
/// rate columns use the same unit.
#[derive(Clone, Debug)]
pub struct StatisticsResult {
    pub directory: String,
    pub total_images: u64,
    pub symlink_count: u64,
    pub broken_symlinks: u64,
    pub total_sidecars: u64,
    pub coverage_percentage: u64,
    pub operation_counts: Vec<(OperationType, u64)>,
    pub avg_processing_times: Vec<(OperationType, u64)>,
    pub success_rate_percentages: Vec<(OperationType, u64)>,
    pub avg_data_sizes: Vec<(OperationType, u64)>,
    pub filter_applied: Option<String>,
    pub sidecars: Vec<SidecarInfo>,
}

impl StatisticsResult {
    pub fn new(directory: String) -> (r: Self)
        ensures
            r.directory == directory,
            r.total_images == 0,
            r.symlink_count == 0,
            r.broken_symlinks == 0,
            r.total_sidecars == 0,
            r.coverage_percentage == 0,
            r.operation_counts@.len() == 0,
            r.avg_processing_times@.len() == 0,
            r.success_rate_percentages@.len() == 0,
            r.avg_data_sizes@.len() == 0,
            r.filter_applied is None,
            r.sidecars@.len() == 0,
    {
        StatisticsResult {
            directory,
            total_images: 0,
            symlink_count: 0,
            broken_symlinks: 0,
            total_sidecars: 0,
            coverage_percentage: 0,
            operation_counts: Vec::new(),
            avg_processing_times: Vec::new(),
            success_rate_percentages: Vec::new(),
            avg_data_sizes: Vec::new(),
            filter_applied: None,
            sidecars: Vec::new(),
        }
    }
}

/// The error kinds single-target operations propagate. Batch operations
/// catch failures per item instead and never abort.
#[derive(Clone, Debug)]
pub enum SidecarError {
    Io(String),
    Json(String),
    InvalidOperationType(String),
    SidecarNotFound(String),
    ImageNotFound(String),
    SymlinkResolutionFailed(String),
    ValidationFailed(String),
    ProcessingError(String),
    SerializationError(String),
}

} // verus!
