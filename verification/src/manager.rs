//! The sidecar manager: resolution under the format-priority rule, merge,
//! creation, conversion, cleanup and statistics, all over a directory
//! snapshot. The caller walks the tree and performs the writes and
//! deletes the engine plans; the decisions are made here.

use vstd::prelude::*;
use crate::codec::{SidecarFormat, FormatManager, encode_spec, decode_spec, detect_spec};
use crate::fsmodel::{FsEntry, FsSnapshot, has_path, entry_at};
use crate::jsontext::{ser_val, parse_text};
use crate::strutil::{with_ext, ext_of, lower_chars, stem_token};
use crate::types::{OperationType, SidecarInfo, SymlinkInfo, SidecarError, StatisticsResult};
use crate::value::{JsonValue, Val, val_of, obj_get, members_of};

verus! {

/// The image extensions the walk recognizes, lowercase.
pub open spec fn image_exts() -> Seq<Seq<char>> {
    seq!["jpg"@, "jpeg"@, "png"@, "tiff"@, "bmp"@, "webp"@]
}

/// The sidecar extensions, lowercase.
pub open spec fn sidecar_exts() -> Seq<Seq<char>> {
    seq!["json"@, "bin"@, "rkyv"@]
}

/// A path whose extension, lowered, is an image extension.
pub open spec fn is_image_path(p: Seq<char>) -> bool {
    match ext_of(p) {
        Some(e) => image_exts().contains(lower_chars(e)),
        None => false,
    }
}

/// A path whose extension, lowered, is a sidecar extension.
pub open spec fn is_sidecar_path(p: Seq<char>) -> bool {
    match ext_of(p) {
        Some(e) => sidecar_exts().contains(lower_chars(e)),
        None => false,
    }
}

/// The detector-key table: a payload holding one of these top-level keys
/// was written by that detector. Kept as data so new detectors can be
/// added without touching the extraction logic.
pub open spec fn detector_map() -> Seq<(Seq<char>, OperationType)> {
    seq![
        ("Face_detector"@, OperationType::FaceDetection),
        ("Object_detector"@, OperationType::ObjectDetection),
        ("Ball_detector"@, OperationType::BallDetection),
        ("Quality_assessor"@, OperationType::QualityAssessment),
        ("Game_detector"@, OperationType::GameDetection),
        ("yolov8"@, OperationType::Yolov8),
    ]
}

/// The views of a vector of strings.
pub open spec fn strs_view(v: Seq<String>) -> Seq<Seq<char>> {
    Seq::new(v.len(), |i: int| v[i]@)
}

/// The views of a keyed operation table.
pub open spec fn map_view(v: Seq<(String, OperationType)>) -> Seq<(Seq<char>, OperationType)> {
    Seq::new(v.len(), |i: int| (v[i].0@, v[i].1))
}

/// The engine. The default write format is an explicit configuration
/// value, not process state.
pub struct SidecarManager {
    pub image_extensions: Vec<String>,
    pub operation_mapping: Vec<(String, OperationType)>,
    pub format_manager: FormatManager,
    pub default_format: SidecarFormat,
}

impl SidecarManager {
    /// The configuration tables hold exactly the fixed data.
    pub open spec fn wf(&self) -> bool {
        strs_view(self.image_extensions@) == image_exts() && map_view(self.operation_mapping@)
            == detector_map()
    }

    pub fn new() -> (r: Self)
        ensures
            r.wf(),
            r.default_format == SidecarFormat::Binary,
    {
        let mut image_extensions: Vec<String> = Vec::new();
        image_extensions.push(str_to_string("jpg"));
        image_extensions.push(str_to_string("jpeg"));
        image_extensions.push(str_to_string("png"));
        image_extensions.push(str_to_string("tiff"));
        image_extensions.push(str_to_string("bmp"));
        image_extensions.push(str_to_string("webp"));
        let mut operation_mapping: Vec<(String, OperationType)> = Vec::new();
        operation_mapping.push((str_to_string("Face_detector"), OperationType::FaceDetection));
        operation_mapping.push((str_to_string("Object_detector"),
            OperationType::ObjectDetection));
        operation_mapping.push((str_to_string("Ball_detector"), OperationType::BallDetection));
        operation_mapping.push((str_to_string("Quality_assessor"),
            OperationType::QualityAssessment));
        operation_mapping.push((str_to_string("Game_detector"), OperationType::GameDetection));
        operation_mapping.push((str_to_string("yolov8"), OperationType::Yolov8));
        let r = SidecarManager {
            image_extensions,
            operation_mapping,
            format_manager: FormatManager::new(),
            default_format: SidecarFormat::default(),
        };
        proof {
            assert(strs_view(r.image_extensions@) =~= image_exts());
            assert(map_view(r.operation_mapping@) =~= detector_map());
        }
        r
    }

    /// Sets the default format for new sidecar files.
    pub fn set_default_format(&mut self, format: SidecarFormat)
        ensures
            final(self).default_format == format,
            final(self).image_extensions == old(self).image_extensions,
            final(self).operation_mapping == old(self).operation_mapping,
            old(self).wf() ==> final(self).wf(),
    {
        self.default_format = format;
    }

    /// The current default format.
    pub fn get_default_format(&self) -> (r: SidecarFormat)
        ensures
            r == self.default_format,
    {
        self.default_format
    }
}

/// An owned copy of a string slice.
fn str_to_string(s: &str) -> (r: String)
    ensures
        r@ == s@,
{
    s.to_owned()
}

// ---------------------------------------------------------------------------
// Resolution
// ---------------------------------------------------------------------------

/// Resolution fails only on a symlink whose target could not be read.
pub open spec fn resolve_err(es: Seq<FsEntry>, p: Seq<char>) -> bool {
    has_path(es, p) && entry_at(es, p).is_symlink && entry_at(es, p).symlink_target is None
}

/// The path sidecar operations address: the link target for a symlink,
/// the path itself otherwise.
pub open spec fn resolved_path(es: Seq<FsEntry>, p: Seq<char>) -> Seq<char> {
    if has_path(es, p) && entry_at(es, p).is_symlink {
        entry_at(es, p).symlink_target->0@
    } else {
        p
    }
}

/// The candidate sidecar path of a format, next to the resolved target.
pub open spec fn cand_path(es: Seq<FsEntry>, p: Seq<char>, f: SidecarFormat) -> Seq<char> {
    with_ext(resolved_path(es, p), f.ext_token())
}

/// The first format (in fixed priority order: Binary, Rkyv, Json) whose
/// candidate path exists, or none.
pub open spec fn first_format(es: Seq<FsEntry>, p: Seq<char>) -> Option<SidecarFormat> {
    if has_path(es, cand_path(es, p, SidecarFormat::Binary)) {
        Some(SidecarFormat::Binary)
    } else if has_path(es, cand_path(es, p, SidecarFormat::Rkyv)) {
        Some(SidecarFormat::Rkyv)
    } else if has_path(es, cand_path(es, p, SidecarFormat::Json)) {
        Some(SidecarFormat::Json)
    } else {
        None
    }
}

/// Format priority: when the binary candidate exists beside the resolved
/// target, resolution picks it — whatever other candidates exist. With
/// [`resolved_info_ok`] this pins the record a resolving call returns for
/// an image that has both a binary and a text sidecar.
pub proof fn lemma_format_priority(es: Seq<FsEntry>, p: Seq<char>)
    requires
        has_path(es, cand_path(es, p, SidecarFormat::Binary)),
    ensures
        first_format(es, p) == Some(SidecarFormat::Binary),
{
}

/// What loading a sidecar's bytes yields: decoded by the extension's
/// format first, by content sniffing as a fallback, by the text codec as
/// a last resort.
pub open spec fn decode_any(scp: Seq<char>, bytes: Seq<u8>) -> Option<Val> {
    match SidecarFormat::from_path_spec(scp) {
        Some(f) => decode_spec(f, bytes),
        None => match detect_spec(bytes) {
            Some(f) => decode_spec(f, bytes),
            None => parse_text(bytes),
        },
    }
}

/// What loading the file at a path yields: nothing when the path is
/// absent or its bytes were not readable.
pub open spec fn load_val(es: Seq<FsEntry>, scp: Seq<char>) -> Option<Val> {
    if has_path(es, scp) {
        match entry_at(es, scp).content {
            Some(c) => decode_any(scp, c@),
            None => None,
        }
    } else {
        None
    }
}

/// The operation a payload records: the `operation_type` token inside a
/// `sidecar_info` block when present, the first matching detector key
/// otherwise, `Unknown` when neither is found.
pub open spec fn op_of_val(v: Val) -> OperationType {
    match v {
        Val::Obj(ms) => match obj_get(ms, "sidecar_info"@) {
            Some(si) => match si {
                Val::Obj(sim) => match obj_get(sim, "operation_type"@) {
                    Some(t) => match t {
                        Val::Str(tok) => OperationType::from_token(tok),
                        _ => detector_scan(ms, 0),
                    },
                    _ => detector_scan(ms, 0),
                },
                _ => detector_scan(ms, 0),
            },
            None => detector_scan(ms, 0),
        },
        _ => OperationType::Unknown,
    }
}

/// First detector key (in table order) present among an object's keys.
pub open spec fn detector_scan(ms: Seq<(Seq<char>, Val)>, k: int) -> OperationType
    decreases detector_map().len() - k,
{
    if k < 0 || k >= detector_map().len() {
        OperationType::Unknown
    } else if obj_get(ms, detector_map()[k].0) is Some {
        detector_map()[k].1
    } else {
        detector_scan(ms, k + 1)
    }
}

/// The operation a loaded (or unloadable) sidecar records.
pub open spec fn op_of_load(m: Option<Val>) -> OperationType {
    match m {
        Some(v) => op_of_val(v),
        None => OperationType::Unknown,
    }
}

/// The full description of a successful resolution record for an image.
#[verifier::opaque]
pub open spec fn resolved_info_ok(es: Seq<FsEntry>, ip: Seq<char>, info: SidecarInfo) -> bool {
    &&& first_format(es, ip) matches Some(f) && info.sidecar_path@ == cand_path(es, ip, f)
    &&& info.image_path@ == ip
    &&& info.operation == op_of_load(load_val(es, info.sidecar_path@))
    &&& info.is_valid == (load_val(es, info.sidecar_path@) is Some)
    &&& info.data_size as int == (match load_val(es, info.sidecar_path@) {
        Some(v) => ser_val(v).len() as int,
        None => 0,
    })
    &&& entry_at(es, ip).is_symlink ==> (info.symlink_info matches Some(si)
        && si.symlink_path@ == ip && si.target_path@ == entry_at(es, ip).symlink_target->0@
        && si.is_symlink && si.broken == !entry_at(es, ip).target_exists)
    &&& !entry_at(es, ip).is_symlink ==> info.symlink_info is None
}

impl SidecarManager {
    /// Decodes a sidecar file's bytes: by the path's extension when it
    /// names a format, by content sniffing or the text codec otherwise.
    fn load_bytes(&self, scp: &str, bytes: &[u8]) -> (r: Result<JsonValue, SidecarError>)
        ensures
            match r {
                Ok(v) => decode_any(scp@, bytes@) == Some(val_of(&v)),
                Err(e) => decode_any(scp@, bytes@) is None && e matches
                    SidecarError::SerializationError(_),
            },
    {
        match SidecarFormat::from_path(scp) {
            Some(f) => match self.format_manager.deserialize_with(f, bytes) {
                Ok(v) => Ok(v),
                Err(_) => Err(SidecarError::SerializationError(str_to_string(
                    "payload does not decode under the extension's format"))),
            },
            None => match self.format_manager.detect_format_from_content(bytes) {
                Ok(f) => match self.format_manager.deserialize_with(f, bytes) {
                    Ok(v) => Ok(v),
                    Err(_) => Err(SidecarError::SerializationError(str_to_string(
                        "payload does not decode under the sniffed format"))),
                },
                Err(_) => match crate::jsontext::from_json_bytes(bytes) {
                    Some(v) => Ok(v),
                    None => Err(SidecarError::SerializationError(str_to_string(
                        "payload matches no known format"))),
                },
            },
        }
    }

    /// The operation a payload records; a pure, best-effort lookup that
    /// never fails.
    pub fn detect_operation_type(&self, data: &JsonValue) -> (r: OperationType)
        requires
            self.wf(),
        ensures
            r == op_of_val(val_of(data)),
    {
        match data.get("sidecar_info") {
            Some(si) => match si.get("operation_type") {
                Some(t) => match t {
                    JsonValue::Str(tok) => {
                        return OperationType::from_str(tok.as_str());
                    }
                    _ => {}
                },
                None => {}
            },
            None => {}
        }
        // no usable sidecar_info block: scan the detector table
        match data {
            JsonValue::Object(_) => {}
            _ => {
                return OperationType::Unknown;
            }
        }
        let n = self.operation_mapping.len();
        let mut k: usize = 0;
        proof {
            assert(op_of_val(val_of(data)) == detector_scan(val_of(data)->Obj_0, 0));
        }
        while k < n
            invariant
                self.wf(),
                n == detector_map().len(),
                k <= n,
                val_of(data) is Obj,
                op_of_val(val_of(data)) == detector_scan(val_of(data)->Obj_0, 0),
                forall|j: int| 0 <= j < k ==> obj_get(val_of(data)->Obj_0, detector_map()[j].0)
                    is None,
            decreases n - k,
        {
            proof {
                assert(map_view(self.operation_mapping@)[k as int] == detector_map()[k as int]);
            }
            match data.get(self.operation_mapping[k].0.as_str()) {
                Some(_) => {
                    proof {
                        lemma_detector_scan_hit(val_of(data)->Obj_0, k as int);
                    }
                    return self.operation_mapping[k].1;
                }
                None => {}
            }
            k = k + 1;
        }
        proof {
            lemma_detector_scan_miss(val_of(data)->Obj_0, 0);
        }
        OperationType::Unknown
    }

    /// Finds the sidecar of one image under the priority rule: the first
    /// existing candidate among the Binary, Rkyv and Json paths next to
    /// the resolved target wins; formats are never merged. Loading and
    /// validation are decoupled: a record is returned even when its
    /// payload does not decode, marked invalid.
    pub fn find_sidecar_for_image(&self, snap: &FsSnapshot, image_path: &str) -> (r: Result<
        Option<SidecarInfo>,
        SidecarError,
    >)
        requires
            self.wf(),
        ensures
            match r {
                Err(e) => resolve_err(snap.entries@, image_path@) && e matches
                    SidecarError::SymlinkResolutionFailed(_),
                Ok(None) => !has_path(snap.entries@, image_path@) || (!resolve_err(
                    snap.entries@, image_path@) && first_format(snap.entries@, image_path@)
                    is None),
                Ok(Some(info)) => has_path(snap.entries@, image_path@) && !resolve_err(
                    snap.entries@, image_path@) && resolved_info_ok(snap.entries@, image_path@,
                    info),
            },
    {
        proof {
            reveal(resolved_info_ok);
        }
        let ghost es = snap.entries@;
        let entry = match snap.find_entry(image_path) {
            None => {
                return Ok(None);
            }
            Some(e) => e,
        };
        let actual: String;
        let symlink_info: Option<SymlinkInfo>;
        if entry.is_symlink {
            match &entry.symlink_target {
                Some(t) => {
                    let si = SymlinkInfo {
                        symlink_path: str_to_string(image_path),
                        target_path: t.clone(),
                        is_symlink: true,
                        broken: !entry.target_exists,
                    };
                    actual = t.clone();
                    symlink_info = Some(si);
                }
                None => {
                    return Err(SidecarError::SymlinkResolutionFailed(str_to_string(
                        image_path)));
                }
            }
        } else {
            actual = str_to_string(image_path);
            symlink_info = None;
        }
        proof {
            assert(actual@ == resolved_path(es, image_path@));
        }
        let cand_bin = crate::strutil::path_with_extension(actual.as_str(),
            SidecarFormat::Binary.extension());
        let cand_rkyv = crate::strutil::path_with_extension(actual.as_str(),
            SidecarFormat::Rkyv.extension());
        let cand_json = crate::strutil::path_with_extension(actual.as_str(),
            SidecarFormat::Json.extension());
        let chosen: String;
        if snap.contains_path(cand_bin.as_str()) {
            chosen = cand_bin;
        } else if snap.contains_path(cand_rkyv.as_str()) {
            chosen = cand_rkyv;
        } else if snap.contains_path(cand_json.as_str()) {
            chosen = cand_json;
        } else {
            return Ok(None);
        }
        proof {
            assert(first_format(es, image_path@) matches Some(f) && chosen@ == cand_path(es,
                image_path@, f));
        }
        let operation: OperationType;
        let is_valid: bool;
        let data_size: u64;
        match snap.find_entry(chosen.as_str()) {
            Some(sce) => match &sce.content {
                Some(bytes) => match self.load_bytes(chosen.as_str(), bytes.as_slice()) {
                    Ok(v) => {
                        let text = crate::jsontext::to_json_bytes(&v);
                        operation = self.detect_operation_type(&v);
                        is_valid = true;
                        data_size = text.len() as u64;
                    }
                    Err(_) => {
                        operation = OperationType::Unknown;
                        is_valid = false;
                        data_size = 0;
                    }
                },
                None => {
                    operation = OperationType::Unknown;
                    is_valid = false;
                    data_size = 0;
                }
            },
            None => {
                proof {
                    assert(false);
                }
                operation = OperationType::Unknown;
                is_valid = false;
                data_size = 0;
            }
        }
        let mut info = SidecarInfo::new(str_to_string(image_path), chosen, operation,
            symlink_info);
        info.data_size = data_size;
        info.is_valid = is_valid;
        Ok(Some(info))
    }
}

// ---------------------------------------------------------------------------
// Creation and merge
// ---------------------------------------------------------------------------

/// Whether a path names an existing symlink in the snapshot.
pub open spec fn is_link(es: Seq<FsEntry>, p: Seq<char>) -> bool {
    has_path(es, p) && entry_at(es, p).is_symlink
}

/// The symlink field of a returned record: present, and filled from the
/// link, exactly when the image is a symlink.
pub open spec fn symlink_field_ok(es: Seq<FsEntry>, ip: Seq<char>, si: Option<SymlinkInfo>) -> bool {
    if is_link(es, ip) {
        si matches Some(x) && x.symlink_path@ == ip && x.target_path@ == entry_at(es,
            ip).symlink_target->0@ && x.is_symlink && x.broken == !entry_at(es,
            ip).target_exists
    } else {
        si is None
    }
}

/// The `symlink_info` member of an envelope: the link's four fields as an
/// object when the image is a symlink, null otherwise.
pub open spec fn symlink_member_ok(es: Seq<FsEntry>, ip: Seq<char>, m: Option<Val>) -> bool {
    if is_link(es, ip) {
        m matches Some(sv) && sv matches Val::Obj(svm) && obj_get(svm, "symlink_path"@)
            == Some(Val::Str(ip)) && obj_get(svm, "target_path"@) == Some(Val::Str(entry_at(
            es, ip).symlink_target->0@)) && obj_get(svm, "is_symlink"@) == Some(Val::Bool(
            true)) && obj_get(svm, "broken"@) == Some(Val::Bool(!entry_at(es,
            ip).target_exists))
    } else {
        m == Some(Val::Null)
    }
}

/// What the merge leaves under `sidecar_info`: an existing object block
/// keeps every member except `last_updated` (bumped to a non-empty time)
/// and `last_operation` (the operation's token); a non-object member is
/// left untouched; an absent member becomes a fresh block with creation
/// and update times, the token, the resolved and given paths, and the
/// symlink member exactly when the image is a symlink.
pub open spec fn merged_block_ok(prev: Option<Val>, token: Seq<char>, actual: Seq<char>,
    ip: Seq<char>, linked: bool, blk: Val) -> bool {
    match prev {
        Some(p) => match p {
            Val::Obj(sim) => blk matches Val::Obj(bm) && obj_get(bm, "last_operation"@)
                == Some(Val::Str(token)) && (obj_get(bm, "last_updated"@) matches Some(u)
                && u matches Val::Str(t) && t.len() > 0) && forall|k: Seq<char>|
                k != "last_updated"@ && k != "last_operation"@ ==> #[trigger] obj_get(bm, k)
                    == obj_get(sim, k),
            _ => blk == p,
        },
        None => blk matches Val::Obj(bm) && (obj_get(bm, "created_at"@) matches Some(c)
            && c matches Val::Str(t1) && t1.len() > 0) && (obj_get(bm, "last_updated"@)
            matches Some(u) && u matches Val::Str(t2) && t2.len() > 0) && obj_get(bm,
            "last_operation"@) == Some(Val::Str(token)) && obj_get(bm, "image_path"@) == Some(
            Val::Str(actual)) && obj_get(bm, "symlink_path"@) == Some(Val::Str(ip)) && (linked
            ==> obj_get(bm, "symlink_info"@) is Some) && (!linked ==> obj_get(bm,
            "symlink_info"@) is None),
    }
}

/// Everything a creation call yields: the record's fields, and the
/// envelope the written bytes decode to — `sidecar_info` with the
/// operation's token, a non-empty creation time, the resolved and given
/// paths and the symlink member, beside the caller's `data`.
pub open spec fn created_ok(es: Seq<FsEntry>, ip: Seq<char>, operation: OperationType,
    data: Val, format: SidecarFormat, info: SidecarInfo, bytes: Seq<u8>) -> bool {
    &&& info.sidecar_path@ == with_ext(resolved_path(es, ip), format.ext_token())
    &&& info.image_path@ == ip
    &&& info.operation == operation
    &&& info.is_valid
    &&& info.data_size as int == bytes.len()
    &&& symlink_field_ok(es, ip, info.symlink_info)
    &&& decode_spec(format, bytes) matches Some(env) && env matches Val::Obj(ms) && obj_get(
        ms, "data"@) == Some(data) && (obj_get(ms, "sidecar_info"@) matches Some(si)
        && si matches Val::Obj(sim) && obj_get(sim, "operation_type"@) == Some(Val::Str(
        operation.token())) && (obj_get(sim, "created_at"@) matches Some(ca) && ca matches
        Val::Str(t) && t.len() > 0) && obj_get(sim, "image_path"@) == Some(Val::Str(
        resolved_path(es, ip))) && obj_get(sim, "symlink_path"@) == Some(Val::Str(ip))
        && symlink_member_ok(es, ip, obj_get(sim, "symlink_info"@)))
}

/// The payload a merge starts from: the decoded existing sidecar, or an
/// empty object when there is none or it does not decode.
pub open spec fn save_base(es: Seq<FsEntry>, scp: Seq<char>) -> Val {
    match load_val(es, scp) {
        Some(v) => v,
        None => Val::Obj(Seq::empty()),
    }
}

impl SidecarManager {
    /// Resolves the symlink step shared by every sidecar operation: the
    /// operations address the resolved target, never the symlink itself.
    fn resolve_target(&self, snap: &FsSnapshot, image_path: &str) -> (r: Result<
        (String, Option<SymlinkInfo>),
        SidecarError,
    >)
        ensures
            match r {
                Err(e) => resolve_err(snap.entries@, image_path@) && e matches
                    SidecarError::SymlinkResolutionFailed(_),
                Ok((actual, si)) => !resolve_err(snap.entries@, image_path@) && actual@
                    == resolved_path(snap.entries@, image_path@) && symlink_field_ok(
                    snap.entries@, image_path@, si),
            },
    {
        match snap.find_entry(image_path) {
            Some(entry) => {
                if entry.is_symlink {
                    match &entry.symlink_target {
                        Some(t) => {
                            let si = SymlinkInfo {
                                symlink_path: str_to_string(image_path),
                                target_path: t.clone(),
                                is_symlink: true,
                                broken: !entry.target_exists,
                            };
                            Ok((t.clone(), Some(si)))
                        }
                        None => Err(SidecarError::SymlinkResolutionFailed(str_to_string(
                            image_path))),
                    }
                } else {
                    Ok((str_to_string(image_path), None))
                }
            }
            None => Ok((str_to_string(image_path), None)),
        }
    }

    /// Creates (or overwrites) a sidecar for an image in the given
    /// format: the payload is wrapped in an envelope object holding a
    /// `sidecar_info` block and the caller's data, serialized, and handed
    /// back with the record; the caller writes the bytes to the record's
    /// sidecar path as one whole-file replace. No merge is attempted.
    pub fn create_sidecar_with_format(&self, snap: &FsSnapshot, image_path: &str,
        operation: OperationType, data: JsonValue, format: SidecarFormat) -> (r: Result<
        (SidecarInfo, Vec<u8>),
        SidecarError,
    >)
        requires
            self.wf(),
        ensures
            match r {
                Err(e) => resolve_err(snap.entries@, image_path@) && e matches
                    SidecarError::SymlinkResolutionFailed(_),
                Ok((info, bytes)) => !resolve_err(snap.entries@, image_path@)
                    && created_ok(snap.entries@, image_path@, operation, val_of(&data),
                    format, info, bytes@),
            },
    {
        let (actual, symlink_info) = match self.resolve_target(snap, image_path) {
            Ok(x) => x,
            Err(e) => {
                return Err(e);
            }
        };
        let sidecar_path = crate::strutil::path_with_extension(actual.as_str(),
            format.extension());
        // the sidecar_info block
        let mut sim: Vec<(String, JsonValue)> = Vec::new();
        sim.push((str_to_string("operation_type"), JsonValue::Str(str_to_string(
            operation.as_str()))));
        sim.push((str_to_string("created_at"), JsonValue::Str(crate::types::now_rfc3339())));
        sim.push((str_to_string("image_path"), JsonValue::Str(actual.clone())));
        sim.push((str_to_string("symlink_path"), JsonValue::Str(str_to_string(image_path))));
        sim.push((str_to_string("symlink_info"), symlink_info_value(&symlink_info)));
        proof {
            crate::value::lemma_members_of_index(sim@);
            reveal_strlit("operation_type");
            reveal_strlit("created_at");
            reveal_strlit("image_path");
            reveal_strlit("symlink_path");
            reveal_strlit("symlink_info");
            assert(members_of(sim@)[0].0 == "operation_type"@);
            assert(members_of(sim@)[1].0 == "created_at"@);
            assert(members_of(sim@)[2].0 == "image_path"@);
            assert(members_of(sim@)[3].0 == "symlink_path"@);
            assert(members_of(sim@)[4].0 == "symlink_info"@);
            assert("created_at"@[0] == 'c' && "image_path"@[0] == 'i');
            assert("created_at"@ != "image_path"@);
            assert("symlink_path"@[8] == 'p' && "symlink_info"@[8] == 'i');
            assert("symlink_path"@ != "symlink_info"@);
            crate::value::lemma_obj_index_of_witness(members_of(sim@), "operation_type"@, 0);
            crate::value::lemma_obj_index_of_witness(members_of(sim@), "created_at"@, 1);
            crate::value::lemma_obj_index_of_witness(members_of(sim@), "image_path"@, 2);
            crate::value::lemma_obj_index_of_witness(members_of(sim@), "symlink_path"@, 3);
            crate::value::lemma_obj_index_of_witness(members_of(sim@), "symlink_info"@, 4);
        }
        let ghost sim_ms = members_of(sim@);
        let mut env: Vec<(String, JsonValue)> = Vec::new();
        env.push((str_to_string("sidecar_info"), JsonValue::Object(sim)));
        env.push((str_to_string("data"), data));
        let envelope = JsonValue::Object(env);
        proof {
            crate::value::lemma_members_of_index(env@);
            reveal_strlit("sidecar_info");
            reveal_strlit("data");
            assert(members_of(env@)[0].0 == "sidecar_info"@);
            assert(members_of(env@)[1].0 == "data"@);
            crate::value::lemma_obj_index_of_witness(members_of(env@), "sidecar_info"@, 0);
            crate::value::lemma_obj_index_of_witness(members_of(env@), "data"@, 1);
        }
        let bytes = match self.format_manager.serialize_with(format, &envelope) {
            Ok(b) => b,
            Err(_) => {
                proof {
                    assert(false);
                }
                return Err(SidecarError::ProcessingError(str_to_string("unreachable")));
            }
        };
        let n = bytes.len();
        crate::jsontext::confirm_val_wf(&envelope);
        proof {
            assert(ser_val(val_of(&envelope)).len() <= n as int);
            crate::codec::lemma_codec_round_trip(format, val_of(&envelope));
        }
        let mut info = SidecarInfo::new(str_to_string(image_path), sidecar_path, operation,
            symlink_info);
        info.data_size = n as u64;
        info.is_valid = true;
        Ok((info, bytes))
    }

    /// Creates a sidecar using the manager's default format.
    pub fn create_sidecar(&self, snap: &FsSnapshot, image_path: &str,
        operation: OperationType, data: JsonValue) -> (r: Result<
        (SidecarInfo, Vec<u8>),
        SidecarError,
    >)
        requires
            self.wf(),
        ensures
            match r {
                Err(e) => resolve_err(snap.entries@, image_path@) && e matches
                    SidecarError::SymlinkResolutionFailed(_),
                Ok((info, bytes)) => !resolve_err(snap.entries@, image_path@)
                    && created_ok(snap.entries@, image_path@, operation, val_of(&data),
                    self.default_format, info, bytes@),
            },
    {
        self.create_sidecar_with_format(snap, image_path, operation, data, self.default_format)
    }

    /// The incremental-update path: merges one operation's payload into
    /// the Binary-format sidecar next to the resolved target — merging is
    /// format-pinned to Binary, whatever the default. An unreadable or
    /// undecodable existing file degrades to an empty object; the
    /// operation's token becomes (or replaces) a top-level key; a
    /// `sidecar_info` block is freshened or created. Every other
    /// top-level key keeps its value, so repeated calls accumulate
    /// sibling operation keys in one file. The caller writes the returned
    /// bytes to the record's sidecar path as one whole-file replace.
    pub fn save_data(&self, snap: &FsSnapshot, image_path: &str, operation: OperationType,
        data: JsonValue) -> (r: Result<(SidecarInfo, Vec<u8>), SidecarError>)
        requires
            self.wf(),
        ensures
            match r {
                Err(e) => resolve_err(snap.entries@, image_path@) && e matches
                    SidecarError::SymlinkResolutionFailed(_),
                Ok((info, bytes)) => {
                    let scp = with_ext(resolved_path(snap.entries@, image_path@),
                        SidecarFormat::Binary.ext_token());
                    let base = save_base(snap.entries@, scp);
                    &&& !resolve_err(snap.entries@, image_path@)
                    &&& info.sidecar_path@ == scp
                    &&& info.image_path@ == image_path@
                    &&& info.operation == operation
                    &&& info.is_valid
                    &&& info.data_size as int == bytes@.len()
                    &&& match base {
                        Val::Obj(bms) => decode_spec(SidecarFormat::Binary, bytes@) matches
                            Some(m) && m matches Val::Obj(ms) && obj_get(ms, operation.token())
                            == Some(val_of(&data)) && (obj_get(ms, "sidecar_info"@) matches
                            Some(blk) && merged_block_ok(obj_get(bms, "sidecar_info"@),
                            operation.token(), resolved_path(snap.entries@, image_path@),
                            image_path@, is_link(snap.entries@, image_path@), blk))
                            && forall|k: Seq<char>|
                            k != operation.token() && k != "sidecar_info"@ ==> #[trigger]
                                obj_get(ms, k) == obj_get(bms, k),
                        _ => decode_spec(SidecarFormat::Binary, bytes@) == Some(base),
                    }
                },
            },
    {
        let ghost es = snap.entries@;
        let (actual, symlink_info) = match self.resolve_target(snap, image_path) {
            Ok(x) => x,
            Err(e) => {
                return Err(e);
            }
        };
        let sidecar_path = crate::strutil::path_with_extension(actual.as_str(),
            SidecarFormat::Binary.extension());
        let ghost scp = sidecar_path@;
        // load the existing payload, or start from an empty object
        let mut existing: JsonValue = JsonValue::Object(Vec::new());
        match snap.find_entry(sidecar_path.as_str()) {
            Some(e) => match &e.content {
                Some(b) => match self.load_bytes(sidecar_path.as_str(), b.as_slice()) {
                    Ok(v) => {
                        existing = v;
                    }
                    Err(_) => {}
                },
                None => {}
            },
            None => {}
        }
        proof {
            assert(members_of(Seq::<(String, JsonValue)>::empty()) =~= Seq::<(
                Seq<char>,
                Val,
            )>::empty());
            assert(val_of(&existing) == save_base(es, scp));
        }
        let ghost base = save_base(es, scp);
        let out_bytes: Vec<u8>;
        let ghost gdata = val_of(&data);
        match existing {
            JsonValue::Object(mut o) => {
                let ghost bms = members_of(o@);
                // bind the operation's payload
                crate::value::obj_insert(&mut o, str_to_string(operation.as_str()), data);
                let ghost after_op = members_of(o@);
                // freshen or create the sidecar_info block
                let si_val = self.fresh_sidecar_block(&mut o, image_path, actual.as_str(),
                    operation, &symlink_info);
                let ghost after_si = members_of(o@);
                let merged = JsonValue::Object(o);
                let b = match self.format_manager.serialize_with(SidecarFormat::Binary,
                    &merged) {
                    Ok(b) => b,
                    Err(_) => {
                        proof {
                            assert(false);
                        }
                        return Err(SidecarError::ProcessingError(str_to_string("unreachable")));
                    }
                };
                let n = b.len();
                crate::jsontext::confirm_val_wf(&merged);
                proof {
                    assert(ser_val(val_of(&merged)).len() <= n as int);
                    crate::codec::lemma_codec_round_trip(SidecarFormat::Binary,
                        val_of(&merged));
                    assert(after_op == crate::value::obj_set(bms, operation.token(), gdata));
                    assert(after_si == crate::value::obj_set(after_op, "sidecar_info"@,
                        si_val@));
                    lemma_token_not_sidecar_info(operation);
                    lemma_merged_props(bms, after_op, after_si, operation.token(), gdata,
                        si_val@);
                    crate::value::lemma_obj_set_get_same(after_op, "sidecar_info"@, si_val@);
                    crate::value::lemma_obj_set_get_other(bms, operation.token(), gdata,
                        "sidecar_info"@);
                    assert(symlink_info is Some == is_link(es, image_path@));
                }
                out_bytes = b;
            }
            other => {
                // a non-object payload is written back unchanged, as the
                // merge has nothing to attach its keys to
                let b = match self.format_manager.serialize_with(SidecarFormat::Binary,
                    &other) {
                    Ok(b) => b,
                    Err(_) => {
                        proof {
                            assert(false);
                        }
                        return Err(SidecarError::ProcessingError(str_to_string("unreachable")));
                    }
                };
                let n = b.len();
                crate::jsontext::confirm_val_wf(&other);
                proof {
                    assert(ser_val(val_of(&other)).len() <= n as int);
                    crate::codec::lemma_codec_round_trip(SidecarFormat::Binary, val_of(&other));
                }
                out_bytes = b;
            }
        }
        let n2 = out_bytes.len();
        let mut info = SidecarInfo::new(str_to_string(image_path), sidecar_path, operation,
            symlink_info);
        info.data_size = n2 as u64;
        info.is_valid = true;
        Ok((info, out_bytes))
    }

    /// Updates the `sidecar_info` member of a merge in place: bumps
    /// `last_updated` and `last_operation` when the member is an object,
    /// leaves a non-object member untouched, and creates a fresh block
    /// when the member is absent. Returns the block's final value.
    fn fresh_sidecar_block(&self, o: &mut Vec<(String, JsonValue)>, image_path: &str,
        actual: &str, operation: OperationType, symlink_info: &Option<SymlinkInfo>) -> (r:
        Ghost<Val>)
        ensures
            members_of(final(o)@) == crate::value::obj_set(members_of(old(o)@),
                "sidecar_info"@, r@),
            merged_block_ok(obj_get(members_of(old(o)@), "sidecar_info"@), operation.token(),
                actual@, image_path@, symlink_info is Some, r@),
    {
        proof {
            crate::value::lemma_members_of_index(o@);
        }
        let n = o.len();
        let mut i: usize = 0;
        while i < n
            invariant
                n == o@.len(),
                i <= n,
                o@ == old(o)@,
                members_of(o@).len() == n,
                forall|q: int| 0 <= q < n ==> #[trigger] members_of(o@)[q] == (o@[q].0@,
                    val_of(&o@[q].1)),
                forall|j: int| 0 <= j < i ==> #[trigger] members_of(o@)[j].0
                    != "sidecar_info"@,
            decreases n - i,
        {
            if crate::strutil::str_eq(o[i].0.as_str(), "sidecar_info") {
                proof {
                    crate::value::lemma_obj_index_of_witness(members_of(old(o)@),
                        "sidecar_info"@, i as int);
                }
                let ghost pre = o@;
                let ghost prev_val = val_of(&o@[i as int].1);
                proof {
                    assert(obj_get(members_of(old(o)@), "sidecar_info"@) == Some(prev_val));
                }
                let (k, v) = o.remove(i);
                let newv: JsonValue;
                match v {
                    JsonValue::Object(mut sio) => {
                        let ghost presim = members_of(sio@);
                        let stamp = crate::types::now_rfc3339();
                        let ghost lut = stamp@;
                        crate::value::obj_insert(&mut sio, str_to_string("last_updated"),
                            JsonValue::Str(stamp));
                        let ghost m1 = members_of(sio@);
                        crate::value::obj_insert(&mut sio, str_to_string("last_operation"),
                            JsonValue::Str(str_to_string(operation.as_str())));
                        let ghost m2 = members_of(sio@);
                        proof {
                            reveal_strlit("last_updated");
                            reveal_strlit("last_operation");
                            assert("last_updated"@.len() == 12 && "last_operation"@.len()
                                == 14);
                            assert(m1 == crate::value::obj_set(presim, "last_updated"@,
                                Val::Str(lut)));
                            assert(m2 == crate::value::obj_set(m1, "last_operation"@,
                                Val::Str(operation.token())));
                            crate::value::lemma_obj_set_get_same(m1, "last_operation"@,
                                Val::Str(operation.token()));
                            crate::value::lemma_obj_set_get_other(m1, "last_operation"@,
                                Val::Str(operation.token()), "last_updated"@);
                            crate::value::lemma_obj_set_get_same(presim, "last_updated"@,
                                Val::Str(lut));
                            assert(obj_get(m2, "last_updated"@) == Some(Val::Str(lut)));
                            assert forall|kk: Seq<char>|
                                kk != "last_updated"@ && kk != "last_operation"@
                                implies #[trigger] obj_get(m2, kk) == obj_get(presim, kk) by {
                                crate::value::lemma_obj_set_get_other(m1, "last_operation"@,
                                    Val::Str(operation.token()), kk);
                                crate::value::lemma_obj_set_get_other(presim,
                                    "last_updated"@, Val::Str(lut), kk);
                            }
                            assert(prev_val == Val::Obj(presim));
                        }
                        newv = JsonValue::Object(sio);
                    }
                    other => {
                        proof {
                            assert(val_of(&other) == prev_val);
                        }
                        newv = other;
                    }
                }
                let ghost gv = val_of(&newv);
                o.insert(i, (k, newv));
                proof {
                    assert(o@ =~= pre.update(i as int, (o@[i as int].0, o@[i as int].1)));
                    assert(o@[i as int].0@ == "sidecar_info"@);
                    crate::value::lemma_members_of_index(o@);
                    crate::value::lemma_members_of_index(pre);
                    assert(members_of(o@) =~= crate::value::obj_set(members_of(pre),
                        "sidecar_info"@, gv));
                    assert(merged_block_ok(Some(prev_val), operation.token(), actual@,
                        image_path@, symlink_info is Some, gv));
                }
                return Ghost(gv);
            }
            i = i + 1;
        }
        proof {
            crate::value::lemma_obj_index_of(members_of(old(o)@), "sidecar_info"@);
            if crate::value::obj_index_of(members_of(old(o)@), "sidecar_info"@) >= 0 {
                assert(members_of(old(o)@)[crate::value::obj_index_of(members_of(old(o)@),
                    "sidecar_info"@)].0 == "sidecar_info"@);
                assert(false);
            }
        }
        // absent: create the block
        let mut sio: Vec<(String, JsonValue)> = Vec::new();
        sio.push((str_to_string("created_at"), JsonValue::Str(crate::types::now_rfc3339())));
        sio.push((str_to_string("last_updated"), JsonValue::Str(crate::types::now_rfc3339())));
        sio.push((str_to_string("last_operation"), JsonValue::Str(str_to_string(
            operation.as_str()))));
        sio.push((str_to_string("image_path"), JsonValue::Str(str_to_string(actual))));
        sio.push((str_to_string("symlink_path"), JsonValue::Str(str_to_string(image_path))));
        match symlink_info {
            Some(_) => {
                sio.push((str_to_string("symlink_info"), symlink_info_value(symlink_info)));
            }
            None => {}
        }
        let block = JsonValue::Object(sio);
        let ghost gv = val_of(&block);
        proof {
            let bm = members_of(block->Object_0@);
            crate::value::lemma_members_of_index(block->Object_0@);
            reveal_strlit("created_at");
            reveal_strlit("last_updated");
            reveal_strlit("last_operation");
            reveal_strlit("image_path");
            reveal_strlit("symlink_path");
            reveal_strlit("symlink_info");
            assert("created_at"@.len() == 10 && "last_updated"@.len() == 12
                && "last_operation"@.len() == 14 && "image_path"@.len() == 10
                && "symlink_path"@.len() == 12 && "symlink_info"@.len() == 12);
            assert("created_at"@[0] == 'c' && "image_path"@[0] == 'i');
            assert("last_updated"@[0] == 'l' && "symlink_path"@[0] == 's'
                && "symlink_info"@[0] == 's');
            assert("symlink_path"@[8] == 'p' && "symlink_info"@[8] == 'i');
            assert(bm[0].0 == "created_at"@);
            assert(bm[1].0 == "last_updated"@);
            assert(bm[2].0 == "last_operation"@);
            assert(bm[3].0 == "image_path"@);
            assert(bm[4].0 == "symlink_path"@);
            crate::value::lemma_obj_index_of_witness(bm, "created_at"@, 0);
            crate::value::lemma_obj_index_of_witness(bm, "last_updated"@, 1);
            crate::value::lemma_obj_index_of_witness(bm, "last_operation"@, 2);
            crate::value::lemma_obj_index_of_witness(bm, "image_path"@, 3);
            crate::value::lemma_obj_index_of_witness(bm, "symlink_path"@, 4);
            match symlink_info {
                Some(_) => {
                    assert(bm[5].0 == "symlink_info"@);
                    crate::value::lemma_obj_index_of_witness(bm, "symlink_info"@, 5);
                }
                None => {
                    crate::value::lemma_obj_index_of(bm, "symlink_info"@);
                    if crate::value::obj_index_of(bm, "symlink_info"@) >= 0 {
                        assert(bm[crate::value::obj_index_of(bm, "symlink_info"@)].0
                            == "symlink_info"@);
                        assert(false);
                    }
                }
            }
            assert(merged_block_ok(None, operation.token(), actual@, image_path@,
                symlink_info is Some, gv));
        }
        let ghost pre = o@;
        o.push((str_to_string("sidecar_info"), block));
        proof {
            crate::value::lemma_members_of_index(o@);
            crate::value::lemma_members_of_index(pre);
            assert(members_of(o@) =~= crate::value::obj_set(members_of(pre), "sidecar_info"@,
                gv));
        }
        Ghost(gv)
    }
}

/// Merge accumulation: two merges with different operation tokens leave
/// both payloads present as sibling top-level keys. Each merge binds its
/// token and freshens the info block, as [`SidecarManager::save_data`]
/// ensures; this law shows the second call keeps the first call's key.
pub proof fn lemma_merge_accumulation(ms: Seq<(Seq<char>, Val)>, t1: Seq<char>, d1: Val,
    s1: Val, t2: Seq<char>, d2: Val, s2: Val)
    requires
        t1 != t2,
        t1 != "sidecar_info"@,
        t2 != "sidecar_info"@,
    ensures
        ({
            let m1 = crate::value::obj_set(crate::value::obj_set(ms, t1, d1), "sidecar_info"@,
                s1);
            let m2 = crate::value::obj_set(crate::value::obj_set(m1, t2, d2), "sidecar_info"@,
                s2);
            obj_get(m2, t1) == Some(d1) && obj_get(m2, t2) == Some(d2) && obj_get(m2,
                "sidecar_info"@) == Some(s2)
        }),
{
    let a1 = crate::value::obj_set(ms, t1, d1);
    let m1 = crate::value::obj_set(a1, "sidecar_info"@, s1);
    let a2 = crate::value::obj_set(m1, t2, d2);
    let m2 = crate::value::obj_set(a2, "sidecar_info"@, s2);
    crate::value::lemma_obj_set_get_same(ms, t1, d1);
    crate::value::lemma_obj_set_get_other(a1, "sidecar_info"@, s1, t1);
    crate::value::lemma_obj_set_get_other(m1, t2, d2, t1);
    crate::value::lemma_obj_set_get_other(a2, "sidecar_info"@, s2, t1);
    crate::value::lemma_obj_set_get_same(m1, t2, d2);
    crate::value::lemma_obj_set_get_other(a2, "sidecar_info"@, s2, t2);
    crate::value::lemma_obj_set_get_same(a2, "sidecar_info"@, s2);
}

/// No operation token collides with the info block's key: their lengths
/// all differ from it.
proof fn lemma_token_not_sidecar_info(op: OperationType)
    ensures
        op.token() != "sidecar_info"@,
{
    reveal_strlit("sidecar_info");
    reveal_strlit("face_detection");
    reveal_strlit("object_detection");
    reveal_strlit("ball_detection");
    reveal_strlit("quality_assessment");
    reveal_strlit("game_detection");
    reveal_strlit("yolov8");
    reveal_strlit("unified");
    reveal_strlit("unknown");
    assert("sidecar_info"@.len() == 12);
}

/// Two successive bindings — the operation's key, then the info block —
/// leave the operation's payload bound, the block present, and every
/// other key as it was in the base.
proof fn lemma_merged_props(bms: Seq<(Seq<char>, Val)>, after_op: Seq<(Seq<char>, Val)>,
    after_si: Seq<(Seq<char>, Val)>, token: Seq<char>, dval: Val, sval: Val)
    requires
        after_op == crate::value::obj_set(bms, token, dval),
        after_si == crate::value::obj_set(after_op, "sidecar_info"@, sval),
        token != "sidecar_info"@,
    ensures
        obj_get(after_si, token) == Some(dval),
        obj_get(after_si, "sidecar_info"@) is Some,
        forall|k: Seq<char>|
            k != token && k != "sidecar_info"@ ==> #[trigger] obj_get(after_si, k) == obj_get(
                bms, k),
{
    crate::value::lemma_obj_set_get_same(bms, token, dval);
    crate::value::lemma_obj_set_get_same(after_op, "sidecar_info"@, sval);
    crate::value::lemma_obj_set_get_other(after_op, "sidecar_info"@, sval, token);
    assert forall|k: Seq<char>| k != token && k != "sidecar_info"@ implies #[trigger] obj_get(
        after_si, k) == obj_get(bms, k) by {
        crate::value::lemma_obj_set_get_other(after_op, "sidecar_info"@, sval, k);
        crate::value::lemma_obj_set_get_other(bms, token, dval, k);
    }
}

/// The symlink block of an envelope: null when the image was no symlink,
/// the link's four fields otherwise.
fn symlink_info_value(si: &Option<SymlinkInfo>) -> (r: JsonValue)
    ensures
        match si {
            None => val_of(&r) == Val::Null,
            Some(x) => val_of(&r) matches Val::Obj(svm) && obj_get(svm, "symlink_path"@)
                == Some(Val::Str(x.symlink_path@)) && obj_get(svm, "target_path"@) == Some(
                Val::Str(x.target_path@)) && obj_get(svm, "is_symlink"@) == Some(Val::Bool(
                x.is_symlink)) && obj_get(svm, "broken"@) == Some(Val::Bool(x.broken)),
        },
{
    match si {
        None => JsonValue::Null,
        Some(x) => {
            let mut o: Vec<(String, JsonValue)> = Vec::new();
            o.push((str_to_string("symlink_path"), JsonValue::Str(x.symlink_path.clone())));
            o.push((str_to_string("target_path"), JsonValue::Str(x.target_path.clone())));
            o.push((str_to_string("is_symlink"), JsonValue::Bool(x.is_symlink)));
            o.push((str_to_string("broken"), JsonValue::Bool(x.broken)));
            let r = JsonValue::Object(o);
            proof {
                crate::value::lemma_members_of_index(r->Object_0@);
                reveal_strlit("symlink_path");
                reveal_strlit("target_path");
                reveal_strlit("is_symlink");
                reveal_strlit("broken");
                let ms = members_of(r->Object_0@);
                assert(ms[0].0 == "symlink_path"@);
                assert(ms[1].0 == "target_path"@);
                assert(ms[2].0 == "is_symlink"@);
                assert(ms[3].0 == "broken"@);
                assert("symlink_path"@.len() == 12 && "target_path"@.len() == 11
                    && "is_symlink"@.len() == 10 && "broken"@.len() == 6);
                crate::value::lemma_obj_index_of_witness(ms, "symlink_path"@, 0);
                crate::value::lemma_obj_index_of_witness(ms, "target_path"@, 1);
                crate::value::lemma_obj_index_of_witness(ms, "is_symlink"@, 2);
                crate::value::lemma_obj_index_of_witness(ms, "broken"@, 3);
            }
            r
        }
    }
}

// ---------------------------------------------------------------------------
// Directory passes: pattern matching, cleanup
// ---------------------------------------------------------------------------

/// An entry the image pass considers: a file or symlink with an image
/// extension.
pub open spec fn is_image_entry(e: FsEntry) -> bool {
    (e.is_file || e.is_symlink) && is_image_path(e.path@)
}

/// An entry the sidecar passes consider: a file with a sidecar extension.
pub open spec fn is_sidecar_entry(e: FsEntry) -> bool {
    e.is_file && is_sidecar_path(e.path@)
}

/// The candidate image path a sidecar's stem token points at, under the
/// scan's root directory.
pub open spec fn pattern_cand(dir: Seq<char>, tok: Seq<char>, ext: Seq<char>) -> Seq<char> {
    dir + seq!['/'] + tok + seq!['.'] + ext
}

/// The first image extension (in fixed order) whose candidate exists.
pub open spec fn pattern_scan(es: Seq<FsEntry>, dir: Seq<char>, tok: Seq<char>, k: int) -> Option<
    Seq<char>,
>
    decreases image_exts().len() - k,
{
    if k < 0 || k >= image_exts().len() {
        None
    } else if has_path(es, pattern_cand(dir, tok, image_exts()[k])) {
        Some(pattern_cand(dir, tok, image_exts()[k]))
    } else {
        pattern_scan(es, dir, tok, k + 1)
    }
}

/// The image a sidecar file name designates by its stem token, if any
/// extension variant of it exists under the root.
pub open spec fn pattern_image(es: Seq<FsEntry>, dir: Seq<char>, p: Seq<char>) -> Option<
    Seq<char>,
> {
    pattern_scan(es, dir, stem_token(p), 0)
}

/// A sidecar file is orphaned when no image extension variant of its
/// stem token exists under the root.
pub open spec fn is_orphan(es: Seq<FsEntry>, dir: Seq<char>, e: FsEntry) -> bool {
    is_sidecar_entry(e) && pattern_image(es, dir, e.path@) is None
}

/// The orphaned sidecar paths among the first `j` entries, in entry
/// order.
pub open spec fn cleanup_plan_upto(es: Seq<FsEntry>, dir: Seq<char>, j: int) -> Seq<Seq<char>>
    decreases j,
{
    if j <= 0 {
        Seq::empty()
    } else if is_orphan(es, dir, es[j - 1]) {
        cleanup_plan_upto(es, dir, j - 1) + seq![es[j - 1].path@]
    } else {
        cleanup_plan_upto(es, dir, j - 1)
    }
}

/// The full cleanup plan: every orphaned sidecar path, in entry order.
pub open spec fn cleanup_plan(es: Seq<FsEntry>, dir: Seq<char>) -> Seq<Seq<char>> {
    cleanup_plan_upto(es, dir, es.len() as int)
}

impl SidecarManager {
    /// Whether a path carries an image extension.
    pub fn is_image_file(&self, path: &str) -> (r: bool)
        requires
            self.wf(),
        ensures
            r == is_image_path(path@),
    {
        let e = match crate::strutil::path_extension(path) {
            Some(e) => e,
            None => {
                return false;
            }
        };
        let n = self.image_extensions.len();
        let mut k: usize = 0;
        while k < n
            invariant
                self.wf(),
                n == image_exts().len(),
                k <= n,
                ext_of(path@) == Some(e@),
                forall|j: int| 0 <= j < k ==> lower_chars(e@) != image_exts()[j],
            decreases n - k,
        {
            proof {
                assert(strs_view(self.image_extensions@)[k as int] == image_exts()[k as int]);
            }
            if crate::strutil::eq_lowered(e.as_str(), self.image_extensions[k].as_str()) {
                proof {
                    assert(image_exts()[k as int] == lower_chars(e@));
                    assert(image_exts().contains(lower_chars(e@)));
                }
                return true;
            }
            k = k + 1;
        }
        proof {
            if image_exts().contains(lower_chars(e@)) {
                let j = choose|j: int|
                    0 <= j < image_exts().len() && image_exts()[j] == lower_chars(e@);
                assert(false);
            }
        }
        false
    }

    /// Whether a path carries a sidecar extension.
    pub fn is_sidecar_file(&self, path: &str) -> (r: bool)
        ensures
            r == is_sidecar_path(path@),
    {
        let e = match crate::strutil::path_extension(path) {
            Some(e) => e,
            None => {
                return false;
            }
        };
        let r = crate::strutil::eq_lowered(e.as_str(), "json") || crate::strutil::eq_lowered(
            e.as_str(), "bin") || crate::strutil::eq_lowered(e.as_str(), "rkyv");
        proof {
            if r {
                if lower_chars(e@) == "json"@ {
                    assert(sidecar_exts()[0] == lower_chars(e@));
                } else if lower_chars(e@) == "bin"@ {
                    assert(sidecar_exts()[1] == lower_chars(e@));
                } else {
                    assert(sidecar_exts()[2] == lower_chars(e@));
                }
                assert(sidecar_exts().contains(lower_chars(e@)));
            } else {
                if sidecar_exts().contains(lower_chars(e@)) {
                    let j = choose|j: int|
                        0 <= j < sidecar_exts().len() && sidecar_exts()[j] == lower_chars(e@);
                    assert(false);
                }
            }
        }
        r
    }

    /// Probes the image extension variants of a stem token under the
    /// root, in fixed order; yields the first that exists.
    fn find_pattern_image(&self, snap: &FsSnapshot, dir: &str, tok: &str) -> (r: Option<String>)
        requires
            self.wf(),
        ensures
            match r {
                Some(p) => pattern_scan(snap.entries@, dir@, tok@, 0) == Some(p@),
                None => pattern_scan(snap.entries@, dir@, tok@, 0) is None,
            },
    {
        let n = self.image_extensions.len();
        let mut k: usize = 0;
        while k < n
            invariant
                self.wf(),
                n == image_exts().len(),
                k <= n,
                forall|j: int| 0 <= j < k ==> !has_path(snap.entries@, pattern_cand(dir@, tok@,
                    image_exts()[j])),
            decreases n - k,
        {
            proof {
                assert(strs_view(self.image_extensions@)[k as int] == image_exts()[k as int]);
            }
            let mut cand = crate::strutil::path_join(dir, tok);
            cand.append(".");
            cand.append(self.image_extensions[k].as_str());
            proof {
                reveal_strlit(".");
                assert("."@ =~= seq!['.']);
                assert(cand@ =~= pattern_cand(dir@, tok@, image_exts()[k as int]));
            }
            if snap.contains_path(cand.as_str()) {
                proof {
                    lemma_pattern_scan_hit(snap.entries@, dir@, tok@, k as int);
                }
                return Some(cand);
            }
            k = k + 1;
        }
        proof {
            lemma_pattern_scan_miss(snap.entries@, dir@, tok@, 0);
        }
        None
    }

    /// Plans the cleanup of orphaned sidecars under a root: exactly the
    /// sidecar files whose stem token has no image extension variant next
    /// to the root, in entry order. The caller deletes the listed paths;
    /// the number removed is the plan's length. There is no undo: a dry
    /// run is the plan itself, without the deletes.
    pub fn cleanup_orphaned_sidecars(&self, snap: &FsSnapshot, directory: &str) -> (r: Vec<
        String,
    >)
        requires
            self.wf(),
        ensures
            strs_view(r@) == cleanup_plan(snap.entries@, directory@),
    {
        let ghost es = snap.entries@;
        let mut out: Vec<String> = Vec::new();
        let n = snap.entries.len();
        let mut j: usize = 0;
        while j < n
            invariant
                self.wf(),
                n == es.len(),
                es == snap.entries@,
                j <= n,
                strs_view(out@) == cleanup_plan_upto(es, directory@, j as int),
            decreases n - j,
        {
            let e = &snap.entries[j];
            if e.is_file && self.is_sidecar_file(e.path.as_str()) {
                let tok = crate::strutil::path_stem_token(e.path.as_str());
                match self.find_pattern_image(snap, directory, tok.as_str()) {
                    Some(_) => {
                        proof {
                            assert(!is_orphan(es, directory@, es[j as int]));
                        }
                    }
                    None => {
                        out.push(e.path.clone());
                        proof {
                            assert(is_orphan(es, directory@, es[j as int]));
                            assert(strs_view(out@) =~= cleanup_plan_upto(es, directory@,
                                j as int + 1));
                        }
                    }
                }
            } else {
                proof {
                    assert(!is_orphan(es, directory@, es[j as int]));
                }
            }
            j = j + 1;
        }
        out
    }
}

// ---------------------------------------------------------------------------
// Directory resolution
// ---------------------------------------------------------------------------

/// No two records point at the same sidecar file.
pub open spec fn distinct_sidecar_paths(ss: Seq<SidecarInfo>) -> bool {
    forall|i: int, k: int|
        0 <= i < k < ss.len() ==> #[trigger] ss[i].sidecar_path@ != #[trigger] ss[k].sidecar_path@
}

/// A record justified by the image pass: the earliest image entry (in
/// walk order) whose resolution yields this record's sidecar path is the
/// one the record describes — so a target and its symlink aliases are
/// attributed to whichever the walk saw first, and the record's fields
/// (its image path and symlink data among them) are pinned to that entry.
#[verifier::opaque]
pub open spec fn image_sound(es: Seq<FsEntry>, info: SidecarInfo) -> bool {
    exists|j: int|
        0 <= j < es.len() && is_image_entry(#[trigger] es[j]) && !resolve_err(es, es[j].path@)
            && resolved_info_ok(es, es[j].path@, info) && (forall|q: int|
            0 <= q < j && is_image_entry(#[trigger] es[q]) ==> !(first_format(es, es[q].path@)
                is Some && cand_path(es, es[q].path@, first_format(es, es[q].path@)->0)
                == info.sidecar_path@))
}

/// Whether some record in a list points at a sidecar path.
#[verifier::opaque]
pub open spec fn has_record(ss: Seq<SidecarInfo>, p: Seq<char>) -> bool {
    exists|k: int| 0 <= k < ss.len() && (#[trigger] ss[k]).sidecar_path@ == p
}

proof fn lemma_has_record_push(ss: Seq<SidecarInfo>, x: SidecarInfo, p: Seq<char>)
    requires
        has_record(ss, p),
    ensures
        has_record(ss.push(x), p),
{
    reveal(has_record);
    let k = choose|k: int| 0 <= k < ss.len() && (#[trigger] ss[k]).sidecar_path@ == p;
    assert(ss.push(x)[k] == ss[k]);
}

proof fn lemma_has_record_new(ss: Seq<SidecarInfo>, x: SidecarInfo)
    ensures
        has_record(ss.push(x), x.sidecar_path@),
{
    reveal(has_record);
    assert(ss.push(x)[ss.len() as int] == x);
}

/// A record justified by the pattern pass: a sidecar file whose stem
/// token matched an image under the root.
#[verifier::opaque]
pub open spec fn pattern_sound(es: Seq<FsEntry>, dir: Seq<char>, info: SidecarInfo) -> bool {
    exists|j: int|
        0 <= j < es.len() && is_sidecar_entry(#[trigger] es[j]) && es[j].path@
            == info.sidecar_path@ && pattern_image(es, dir, es[j].path@) == Some(
            info.image_path@) && info.symlink_info is None && info.operation == op_of_load(
            load_val(es, info.sidecar_path@)) && info.is_valid == (load_val(es,
            info.sidecar_path@) is Some)
}

impl SidecarManager {
    /// What loading the file at a path yields, summarized for a record:
    /// its operation, whether it decoded, and its payload's text size.
    fn load_summary(&self, snap: &FsSnapshot, scp: &str) -> (r: (OperationType, bool, u64))
        requires
            self.wf(),
        ensures
            r.0 == op_of_load(load_val(snap.entries@, scp@)),
            r.1 == (load_val(snap.entries@, scp@) is Some),
            r.2 as int == (match load_val(snap.entries@, scp@) {
                Some(v) => ser_val(v).len() as int,
                None => 0,
            }),
    {
        match snap.find_entry(scp) {
            Some(e) => match &e.content {
                Some(b) => match self.load_bytes(scp, b.as_slice()) {
                    Ok(v) => {
                        let text = crate::jsontext::to_json_bytes(&v);
                        let op = self.detect_operation_type(&v);
                        (op, true, text.len() as u64)
                    }
                    Err(_) => (OperationType::Unknown, false, 0),
                },
                None => (OperationType::Unknown, false, 0),
            },
            None => (OperationType::Unknown, false, 0),
        }
    }

    /// Finds every resolvable sidecar under a root: one record per image
    /// whose sidecar resolves, deduplicated by sidecar path — two
    /// symlinks to one target share one sidecar and yield one record —
    /// followed by a pattern pass that claims sidecar files whose stem
    /// token names an image next to the root.
    #[verifier::rlimit(100)]
    pub fn find_all_sidecars(&self, snap: &FsSnapshot, directory: &str) -> (r: Result<
        Vec<SidecarInfo>,
        SidecarError,
    >)
        requires
            self.wf(),
        ensures
            match r {
                Err(e) => (exists|j: int|
                    0 <= j < snap.entries@.len() && is_image_entry(#[trigger] snap.entries@[j])
                        && resolve_err(snap.entries@, snap.entries@[j].path@)) && e matches
                    SidecarError::SymlinkResolutionFailed(_),
                Ok(v) => {
                    &&& distinct_sidecar_paths(v@)
                    &&& forall|k: int|
                        0 <= k < v@.len() ==> image_sound(snap.entries@, #[trigger] v@[k])
                            || pattern_sound(snap.entries@, directory@, v@[k])
                    &&& forall|j: int|
                        0 <= j < snap.entries@.len() && is_image_entry(
                            #[trigger] snap.entries@[j]) && first_format(snap.entries@,
                            snap.entries@[j].path@) is Some ==> has_record(v@, cand_path(
                            snap.entries@, snap.entries@[j].path@, first_format(snap.entries@,
                            snap.entries@[j].path@)->0))
                    &&& forall|j: int|
                        0 <= j < snap.entries@.len() && is_sidecar_entry(
                            #[trigger] snap.entries@[j]) && pattern_image(snap.entries@,
                            directory@, snap.entries@[j].path@) is Some ==> has_record(v@,
                            snap.entries@[j].path@)
                },
            },
    {
        let ghost es = snap.entries@;
        let mut out: Vec<SidecarInfo> = Vec::new();
        let n = snap.entries.len();
        let mut j: usize = 0;
        while j < n
            invariant
                self.wf(),
                n == es.len(),
                es == snap.entries@,
                j <= n,
                distinct_sidecar_paths(out@),
                forall|k: int| 0 <= k < out@.len() ==> image_sound(es, #[trigger] out@[k]),
                forall|q: int|
                    0 <= q < j && is_image_entry(#[trigger] es[q]) && first_format(es,
                        es[q].path@) is Some ==> has_record(out@, cand_path(es, es[q].path@,
                        first_format(es, es[q].path@)->0)),
                forall|q: int|
                    0 <= q < j && is_image_entry(#[trigger] es[q]) ==> !resolve_err(es,
                        es[q].path@),
            decreases n - j,
        {
            let e = &snap.entries[j];
            if (e.is_file || e.is_symlink) && self.is_image_file(e.path.as_str()) {
                proof {
                    assert(is_image_entry(es[j as int]));
                }
                match self.find_sidecar_for_image(snap, e.path.as_str()) {
                    Err(er) => {
                        proof {
                            assert(resolve_err(es, es[j as int].path@));
                        }
                        return Err(er);
                    }
                    Ok(None) => {
                        proof {
                            crate::fsmodel::lemma_has_path_of_entry(es, j as int);
                            assert(first_format(es, es[j as int].path@) is None);
                        }
                    }
                    Ok(Some(info)) => {
                        proof {
                            assert(info.sidecar_path@ == cand_path(es, es[j as int].path@,
                                first_format(es, es[j as int].path@)->0)) by {
                                reveal(resolved_info_ok);
                            }
                        }
                        if !contains_sidecar_path(&out, info.sidecar_path.as_str()) {
                            let ghost pre = out@;
                            let ghost ginfo = info;
                            out.push(info);
                            proof {
                                assert(out@ == pre.push(ginfo));
                                assert(forall|k: int|
                                    0 <= k < pre.len() ==> #[trigger] out@[k] == pre[k]);
                                assert(out@[pre.len() as int] == ginfo);
                                assert(distinct_sidecar_paths(out@)) by {
                                    reveal(has_record);
                                }
                                assert(image_sound(es, ginfo)) by {
                                    reveal(image_sound);
                                    assert forall|q: int|
                                        0 <= q < j && is_image_entry(#[trigger] es[q])
                                        implies !(first_format(es, es[q].path@) is Some
                                        && cand_path(es, es[q].path@, first_format(es,
                                        es[q].path@)->0) == ginfo.sidecar_path@) by {
                                        if first_format(es, es[q].path@) is Some && cand_path(
                                            es, es[q].path@, first_format(es,
                                            es[q].path@)->0) == ginfo.sidecar_path@ {
                                            assert(has_record(pre, ginfo.sidecar_path@));
                                        }
                                    }
                                    assert(is_image_entry(es[j as int]) && !resolve_err(es,
                                        es[j as int].path@) && resolved_info_ok(es,
                                        es[j as int].path@, ginfo));
                                }
                                lemma_has_record_new(pre, ginfo);
                                assert forall|q: int|
                                    0 <= q < j + 1 && is_image_entry(#[trigger] es[q])
                                        && first_format(es, es[q].path@) is Some implies
                                    has_record(out@, cand_path(es, es[q].path@, first_format(
                                        es, es[q].path@)->0)) by {
                                    if q < j {
                                        lemma_has_record_push(pre, ginfo, cand_path(es,
                                            es[q].path@, first_format(es, es[q].path@)->0));
                                    }
                                }
                            }
                        }
                    }
                }
            }
            j = j + 1;
        }
        // pattern pass: claim sidecar files whose stem token names an
        // image next to the root
        let mut j2: usize = 0;
        while j2 < n
            invariant
                self.wf(),
                n == es.len(),
                es == snap.entries@,
                j2 <= n,
                distinct_sidecar_paths(out@),
                forall|k: int|
                    0 <= k < out@.len() ==> image_sound(es, #[trigger] out@[k])
                        || pattern_sound(es, directory@, out@[k]),
                forall|q: int|
                    0 <= q < n && is_image_entry(#[trigger] es[q]) && first_format(es,
                        es[q].path@) is Some ==> has_record(out@, cand_path(es, es[q].path@,
                        first_format(es, es[q].path@)->0)),
                forall|q: int|
                    0 <= q < j2 && is_sidecar_entry(#[trigger] es[q]) && pattern_image(es,
                        directory@, es[q].path@) is Some ==> has_record(out@, es[q].path@),
            decreases n - j2,
        {
            let e = &snap.entries[j2];
            if e.is_file && self.is_sidecar_file(e.path.as_str()) {
                let tok = crate::strutil::path_stem_token(e.path.as_str());
                match self.find_pattern_image(snap, directory, tok.as_str()) {
                    Some(img) => {
                        if !contains_sidecar_path(&out, e.path.as_str()) {
                            let (op, ok, size) = self.load_summary(snap, e.path.as_str());
                            let mut info = SidecarInfo::new(img, e.path.clone(), op, None);
                            info.is_valid = ok;
                            info.data_size = size;
                            let ghost pre = out@;
                            let ghost ginfo = info;
                            out.push(info);
                            proof {
                                assert(out@ == pre.push(ginfo));
                                assert(forall|k: int|
                                    0 <= k < pre.len() ==> #[trigger] out@[k] == pre[k]);
                                assert(out@[pre.len() as int] == ginfo);
                                assert(distinct_sidecar_paths(out@)) by {
                                    reveal(has_record);
                                }
                                assert(pattern_sound(es, directory@, ginfo)) by {
                                    reveal(pattern_sound);
                                    assert(is_sidecar_entry(es[j2 as int])
                                        && es[j2 as int].path@ == ginfo.sidecar_path@
                                        && pattern_image(es, directory@, es[j2 as int].path@)
                                        == Some(ginfo.image_path@));
                                }
                                lemma_has_record_new(pre, ginfo);
                                assert forall|q: int|
                                    0 <= q < n && is_image_entry(#[trigger] es[q])
                                        && first_format(es, es[q].path@) is Some implies
                                    has_record(out@, cand_path(es, es[q].path@, first_format(
                                        es, es[q].path@)->0)) by {
                                    lemma_has_record_push(pre, ginfo, cand_path(es,
                                        es[q].path@, first_format(es, es[q].path@)->0));
                                }
                                assert forall|q: int|
                                    0 <= q < j2 + 1 && is_sidecar_entry(#[trigger] es[q])
                                        && pattern_image(es, directory@, es[q].path@) is Some
                                    implies has_record(out@, es[q].path@) by {
                                    if q < j2 {
                                        lemma_has_record_push(pre, ginfo, es[q].path@);
                                    } else {
                                        assert(es[q].path@ == ginfo.sidecar_path@);
                                    }
                                }
                            }
                        }
                    }
                    None => {}
                }
            }
            j2 = j2 + 1;
        }
        Ok(out)
    }
}

/// Whether a record for a sidecar path is already present.
fn contains_sidecar_path(v: &Vec<SidecarInfo>, p: &str) -> (r: bool)
    ensures
        r == has_record(v@, p@),
{
    proof {
        reveal(has_record);
    }
    let n = v.len();
    let mut i: usize = 0;
    while i < n
        invariant
            n == v@.len(),
            i <= n,
            forall|k: int| 0 <= k < i ==> (#[trigger] v@[k]).sidecar_path@ != p@,
        decreases n - i,
    {
        if crate::strutil::str_eq(v[i].sidecar_path.as_str(), p) {
            proof {
                reveal(has_record);
            }
            return true;
        }
        i = i + 1;
    }
    proof {
        reveal(has_record);
    }
    false
}

// ---------------------------------------------------------------------------
// Statistics
// ---------------------------------------------------------------------------

proof fn lemma_counts_nonneg(ss: Seq<SidecarInfo>, op: OperationType, j: int)
    ensures
        count_op(ss, op, j) >= 0,
        count_valid_op(ss, op, j) >= 0,
        sum_size_op(ss, op, j) >= 0,
    decreases j,
{
    if j > 0 {
        lemma_counts_nonneg(ss, op, j - 1);
    }
}

/// Images among the first `j` entries.
pub open spec fn count_images(es: Seq<FsEntry>, j: int) -> int
    decreases j,
{
    if j <= 0 {
        0
    } else if is_image_entry(es[j - 1]) {
        count_images(es, j - 1) + 1
    } else {
        count_images(es, j - 1)
    }
}

/// Symlinked images among the first `j` entries.
pub open spec fn count_symlink_images(es: Seq<FsEntry>, j: int) -> int
    decreases j,
{
    if j <= 0 {
        0
    } else if is_image_entry(es[j - 1]) && es[j - 1].is_symlink {
        count_symlink_images(es, j - 1) + 1
    } else {
        count_symlink_images(es, j - 1)
    }
}

/// Broken symlinked images among the first `j` entries.
pub open spec fn count_broken_images(es: Seq<FsEntry>, j: int) -> int
    decreases j,
{
    if j <= 0 {
        0
    } else if is_image_entry(es[j - 1]) && es[j - 1].is_symlink && !es[j - 1].target_exists {
        count_broken_images(es, j - 1) + 1
    } else {
        count_broken_images(es, j - 1)
    }
}

/// Records of one operation among the first `j` of a record list.
pub open spec fn count_op(ss: Seq<SidecarInfo>, op: OperationType, j: int) -> int
    decreases j,
{
    if j <= 0 {
        0
    } else if ss[j - 1].operation == op {
        count_op(ss, op, j - 1) + 1
    } else {
        count_op(ss, op, j - 1)
    }
}

/// Valid records of one operation among the first `j`.
pub open spec fn count_valid_op(ss: Seq<SidecarInfo>, op: OperationType, j: int) -> int
    decreases j,
{
    if j <= 0 {
        0
    } else if ss[j - 1].operation == op && ss[j - 1].is_valid {
        count_valid_op(ss, op, j - 1) + 1
    } else {
        count_valid_op(ss, op, j - 1)
    }
}

/// Total payload size of one operation's records among the first `j`.
pub open spec fn sum_size_op(ss: Seq<SidecarInfo>, op: OperationType, j: int) -> int
    decreases j,
{
    if j <= 0 {
        0
    } else if ss[j - 1].operation == op {
        sum_size_op(ss, op, j - 1) + ss[j - 1].data_size
    } else {
        sum_size_op(ss, op, j - 1)
    }
}

/// Coverage in hundredths of a percent: sidecars over images, zero when
/// there are no images, clipped at the field's ceiling.
pub open spec fn coverage_spec(nsc: int, nimg: int) -> int {
    if nimg <= 0 {
        0
    } else if nsc * 10000 / nimg > 0xffff_ffff_ffff_ffff {
        0xffff_ffff_ffff_ffff
    } else {
        nsc * 10000 / nimg
    }
}

/// The three per-operation columns agree with the record list: one row
/// per operation that occurs, carrying its count, its success rate in
/// hundredths of a percent, and its average payload size.
pub open spec fn groups_ok(ss: Seq<SidecarInfo>, counts: Seq<(OperationType, u64)>,
    rates: Seq<(OperationType, u64)>, sizes: Seq<(OperationType, u64)>) -> bool {
    let n = ss.len() as int;
    &&& rates.len() == counts.len()
    &&& sizes.len() == counts.len()
    &&& forall|i: int, k: int|
        0 <= i < k < counts.len() ==> (#[trigger] counts[i]).0 != (#[trigger] counts[k]).0
    &&& forall|i: int|
        0 <= i < counts.len() ==> {
            let op = (#[trigger] counts[i]).0
            ;
            &&& rates[i].0 == op
            &&& sizes[i].0 == op
            &&& counts[i].1 as int == count_op(ss, op, n)
            &&& counts[i].1 > 0
            &&& rates[i].1 as int == count_valid_op(ss, op, n) * 10000 / count_op(ss, op, n)
            &&& sizes[i].1 as int == sum_size_op(ss, op, n) / count_op(ss, op, n)
        }
    &&& forall|op: OperationType|
        count_op(ss, op, n) > 0 ==> exists|i: int|
            0 <= i < counts.len() && (#[trigger] counts[i]).0 == op
}

impl SidecarManager {
    /// Aggregate statistics over a directory: the resolved records, image
    /// and symlink counts, coverage, and the per-operation columns.
    /// Coverage is sidecars over images in hundredths of a percent, zero
    /// when there are no images. The per-operation average processing
    /// time column stays empty: records carry no processing time.
    #[verifier::rlimit(100)]
    pub fn get_statistics(&self, snap: &FsSnapshot, directory: &str) -> (r: Result<
        StatisticsResult,
        SidecarError,
    >)
        requires
            self.wf(),
        ensures
            match r {
                Err(e) => (exists|j: int|
                    0 <= j < snap.entries@.len() && is_image_entry(#[trigger] snap.entries@[j])
                        && resolve_err(snap.entries@, snap.entries@[j].path@)) && e matches
                    SidecarError::SymlinkResolutionFailed(_),
                Ok(st) => {
                    let es = snap.entries@;
                    let n = es.len() as int;
                    &&& st.directory@ == directory@
                    &&& st.total_images as int == count_images(es, n)
                    &&& st.symlink_count as int == count_symlink_images(es, n)
                    &&& st.broken_symlinks as int == count_broken_images(es, n)
                    &&& st.total_sidecars as int == st.sidecars@.len()
                    &&& st.coverage_percentage as int == coverage_spec(st.sidecars@.len() as int,
                        count_images(es, n))
                    &&& distinct_sidecar_paths(st.sidecars@)
                    &&& forall|k: int|
                        0 <= k < st.sidecars@.len() ==> image_sound(es,
                            #[trigger] st.sidecars@[k]) || pattern_sound(es, directory@,
                            st.sidecars@[k])
                    &&& st.avg_processing_times@.len() == 0
                    &&& st.filter_applied is None
                    &&& groups_ok(st.sidecars@, st.operation_counts@,
                        st.success_rate_percentages@, st.avg_data_sizes@)
                },
            },
    {
        let ghost es = snap.entries@;
        let sidecars = match self.find_all_sidecars(snap, directory) {
            Ok(v) => v,
            Err(e) => {
                return Err(e);
            }
        };
        let ghost gss = sidecars@;
        // image, symlink and broken-symlink counts
        let n = snap.entries.len();
        let mut ni: u64 = 0;
        let mut nsym: u64 = 0;
        let mut nbrk: u64 = 0;
        let mut j: usize = 0;
        while j < n
            invariant
                self.wf(),
                n == es.len(),
                es == snap.entries@,
                j <= n,
                ni as int == count_images(es, j as int),
                nsym as int == count_symlink_images(es, j as int),
                nbrk as int == count_broken_images(es, j as int),
                ni as int <= j as int && nsym as int <= j as int && nbrk as int <= j as int,
            decreases n - j,
        {
            let e = &snap.entries[j];
            if (e.is_file || e.is_symlink) && self.is_image_file(e.path.as_str()) {
                ni = ni + 1;
                if e.is_symlink {
                    nsym = nsym + 1;
                    if !e.target_exists {
                        nbrk = nbrk + 1;
                    }
                }
            }
            j = j + 1;
        }
        // per-operation tallies: one pass per operation kind, a row per
        // kind that occurs
        let mut ops: Vec<OperationType> = Vec::new();
        ops.push(OperationType::FaceDetection);
        ops.push(OperationType::ObjectDetection);
        ops.push(OperationType::BallDetection);
        ops.push(OperationType::QualityAssessment);
        ops.push(OperationType::GameDetection);
        ops.push(OperationType::Yolov8);
        ops.push(OperationType::Unified);
        ops.push(OperationType::Unknown);
        proof {
            assert(forall|op: OperationType| ops@.contains(op)) by {
                assert forall|op: OperationType| ops@.contains(op) by {
                    match op {
                        OperationType::FaceDetection => {
                            assert(ops@[0] == op);
                        }
                        OperationType::ObjectDetection => {
                            assert(ops@[1] == op);
                        }
                        OperationType::BallDetection => {
                            assert(ops@[2] == op);
                        }
                        OperationType::QualityAssessment => {
                            assert(ops@[3] == op);
                        }
                        OperationType::GameDetection => {
                            assert(ops@[4] == op);
                        }
                        OperationType::Yolov8 => {
                            assert(ops@[5] == op);
                        }
                        OperationType::Unified => {
                            assert(ops@[6] == op);
                        }
                        OperationType::Unknown => {
                            assert(ops@[7] == op);
                        }
                    }
                }
            }
        }
        let nops = ops.len();
        let mut counts: Vec<(OperationType, u64)> = Vec::new();
        let mut rates: Vec<(OperationType, u64)> = Vec::new();
        let mut sizes: Vec<(OperationType, u64)> = Vec::new();
        let mut q: usize = 0;
        while q < nops
            invariant
                nops == ops@.len(),
                gss == sidecars@,
                q <= nops,
                forall|i: int, k: int|
                    0 <= i < k < ops@.len() ==> ops@[i] != ops@[k],
                rates@.len() == counts@.len(),
                sizes@.len() == counts@.len(),
                forall|i: int|
                    0 <= i < counts@.len() ==> exists|w: int|
                        0 <= w < q && ops@[w] == (#[trigger] counts@[i]).0,
                forall|i: int, k: int|
                    0 <= i < k < counts@.len() ==> (#[trigger] counts@[i]).0 != (
                    #[trigger] counts@[k]).0,
                forall|i: int|
                    0 <= i < counts@.len() ==> {
                        let op = (#[trigger] counts@[i]).0
                        ;
                        &&& rates@[i].0 == op
                        &&& sizes@[i].0 == op
                        &&& counts@[i].1 as int == count_op(gss, op, gss.len() as int)
                        &&& counts@[i].1 > 0
                        &&& rates@[i].1 as int == count_valid_op(gss, op, gss.len() as int)
                            * 10000 / count_op(gss, op, gss.len() as int)
                        &&& sizes@[i].1 as int == sum_size_op(gss, op, gss.len() as int)
                            / count_op(gss, op, gss.len() as int)
                    },
                forall|w: int|
                    0 <= w < q && count_op(gss, #[trigger] ops@[w], gss.len() as int) > 0
                        ==> exists|i: int|
                        0 <= i < counts@.len() && (#[trigger] counts@[i]).0 == ops@[w],
            decreases nops - q,
        {
            let op = ops[q];
            let (c, v, sm) = tally_op(&sidecars, op);
            if c > 0 {
                let rate128 = (v as u128) * 10000 / (c as u128);
                let avg128 = sm / (c as u128);
                proof {
                    vstd::arithmetic::div_mod::lemma_div_multiples_vanish(10000, c as int);
                    vstd::arithmetic::div_mod::lemma_div_is_ordered(v as int * 10000, c as int
                        * 10000, c as int);
                    assert(v as int * 10000 <= c as int * 10000) by (nonlinear_arith)
                        requires v <= c;
                    assert(rate128 <= 10000);
                    vstd::arithmetic::div_mod::lemma_div_multiples_vanish(
                        0xffff_ffff_ffff_ffff, c as int);
                    vstd::arithmetic::div_mod::lemma_div_is_ordered(sm as int, c as int
                        * 0xffff_ffff_ffff_ffff, c as int);
                    assert(avg128 <= 0xffff_ffff_ffff_ffff);
                }
                let ghost cpre = counts@;
                counts.push((op, c));
                rates.push((op, rate128 as u64));
                sizes.push((op, avg128 as u64));
                proof {
                    assert(forall|i: int|
                        0 <= i < cpre.len() ==> (#[trigger] counts@[i]) == cpre[i]);
                    assert(counts@[cpre.len() as int] == (op, c));
                    assert forall|i: int, k: int| 0 <= i < k < counts@.len() implies (
                        #[trigger] counts@[i]).0 != (#[trigger] counts@[k]).0 by {
                        if k == cpre.len() as int {
                            let w = choose|w: int|
                                0 <= w < q && ops@[w] == (#[trigger] cpre[i]).0;
                            assert(ops@[w] != ops@[q as int]);
                        }
                    }
                    assert forall|w: int|
                        0 <= w < q + 1 && count_op(gss, #[trigger] ops@[w],
                            gss.len() as int) > 0 implies exists|i: int|
                        0 <= i < counts@.len() && (#[trigger] counts@[i]).0 == ops@[w] by {
                        if w < q {
                            let i0 = choose|i: int|
                                0 <= i < cpre.len() && (#[trigger] cpre[i]).0 == ops@[w];
                            assert(counts@[i0] == cpre[i0]);
                        } else {
                            assert(counts@[cpre.len() as int].0 == ops@[w]);
                        }
                    }
                }
            }
            q = q + 1;
        }
        proof {
            assert forall|op: OperationType|
                #[trigger] count_op(gss, op, gss.len() as int) > 0 implies exists|i: int|
                0 <= i < counts@.len() && (#[trigger] counts@[i]).0 == op by {
                assert(ops@.contains(op));
                let w = choose|w: int| 0 <= w < ops@.len() && ops@[w] == op;
            }
        }
        let nsc = sidecars.len() as u64;

        let coverage: u64;
        if ni == 0 {
            coverage = 0;
        } else {
            let cov128 = (nsc as u128) * 10000 / (ni as u128);
            if cov128 > 0xffff_ffff_ffff_ffff {
                coverage = 0xffff_ffff_ffff_ffff;
            } else {
                coverage = cov128 as u64;
            }
        }
        let st = StatisticsResult {
            directory: str_to_string(directory),
            total_images: ni,
            symlink_count: nsym,
            broken_symlinks: nbrk,
            total_sidecars: nsc,
            coverage_percentage: coverage,
            operation_counts: counts,
            avg_processing_times: Vec::new(),
            success_rate_percentages: rates,
            avg_data_sizes: sizes,
            filter_applied: None,
            sidecars,
        };
        Ok(st)
    }
}

/// One operation's tallies over a record list: how many records, how
/// many valid, and the total payload size.
fn tally_op(ss: &Vec<SidecarInfo>, op: OperationType) -> (r: (u64, u64, u128))
    ensures
        r.0 as int == count_op(ss@, op, ss@.len() as int),
        r.1 as int == count_valid_op(ss@, op, ss@.len() as int),
        r.2 as int == sum_size_op(ss@, op, ss@.len() as int),
        r.1 <= r.0,
        r.0 as int <= ss@.len(),
        r.2 as int <= r.0 as int * 0xffff_ffff_ffff_ffff,
{
    let n = ss.len();
    let mut c: u64 = 0;
    let mut v: u64 = 0;
    let mut sm: u128 = 0;
    let mut t: usize = 0;
    while t < n
        invariant
            n == ss@.len(),
            t <= n,
            c as int == count_op(ss@, op, t as int),
            v as int == count_valid_op(ss@, op, t as int),
            sm as int == sum_size_op(ss@, op, t as int),
            v <= c,
            c as int <= t as int,
            sm as int <= c as int * 0xffff_ffff_ffff_ffff,
        decreases n - t,
    {
        if ss[t].operation == op {
            c = c + 1;
            if ss[t].is_valid {
                v = v + 1;
            }
            sm = sm + ss[t].data_size as u128;
        }
        t = t + 1;
    }
    (c, v, sm)
}

// ---------------------------------------------------------------------------
// Format conversion
// ---------------------------------------------------------------------------

/// The format a sidecar file is taken to be in: its extension's format,
/// text when the extension names none.
pub open spec fn cur_format(p: Seq<char>) -> SidecarFormat {
    match SidecarFormat::from_path_spec(p) {
        Some(f) => f,
        None => SidecarFormat::Json,
    }
}

/// A fixed extension token reads back as its own format from the path it
/// was attached to.
pub proof fn lemma_with_ext_format(p: Seq<char>, f: SidecarFormat)
    ensures
        ext_of(with_ext(p, f.ext_token())) == Some(f.ext_token()),
        SidecarFormat::from_path_spec(with_ext(p, f.ext_token())) == Some(f),
{
    reveal_strlit("json");
    reveal_strlit("bin");
    reveal_strlit("rkyv");
    let tok = f.ext_token();
    assert forall|i: int| 0 <= i < tok.len() implies #[trigger] tok[i] != '.' && tok[i] != '/'
        && tok[i] != '\\' by {}
    crate::strutil::lemma_with_ext_ext(p, tok);
    assert(lower_chars(tok) =~= tok) by {
        assert forall|i: int| 0 <= i < tok.len()
            implies #[trigger] lower_chars(tok)[i] == tok[i] by {
            assert(!(65 <= tok[i] as u32 <= 90));
        }
    }
    assert("json"@[0] == 'j' && "rkyv"@[0] == 'r');
}

/// One entry of the conversion plan, ready to apply: the caller writes
/// the bytes to the target path, then deletes the source path, in that
/// order.
pub struct ConversionJob {
    pub source_path: String,
    pub target_path: String,
    pub bytes: Vec<u8>,
}

/// The views of a plan.
pub open spec fn jobs_view(v: Seq<ConversionJob>) -> Seq<(Seq<char>, Seq<char>, Seq<u8>)> {
    Seq::new(v.len(), |i: int| (v[i].source_path@, v[i].target_path@, v[i].bytes@))
}

/// A file the batch conversion takes on: a sidecar file whose format
/// differs from the target and whose payload decodes.
pub open spec fn needs_convert(es: Seq<FsEntry>, e: FsEntry, target: SidecarFormat) -> bool {
    is_sidecar_entry(e) && cur_format(e.path@) != target && load_val(es, e.path@) is Some
}

/// The planned job of one file.
pub open spec fn conv_triple(es: Seq<FsEntry>, p: Seq<char>, target: SidecarFormat) -> (
    Seq<char>,
    Seq<char>,
    Seq<u8>,
) {
    (p, with_ext(p, target.ext_token()), encode_spec(target, load_val(es, p)->0))
}

/// The conversion plan over the first `j` entries, in entry order.
pub open spec fn convert_plan_upto(es: Seq<FsEntry>, target: SidecarFormat, j: int) -> Seq<
    (Seq<char>, Seq<char>, Seq<u8>),
>
    decreases j,
{
    if j <= 0 {
        Seq::empty()
    } else if needs_convert(es, es[j - 1], target) {
        convert_plan_upto(es, target, j - 1) + seq![conv_triple(es, es[j - 1].path@, target)]
    } else {
        convert_plan_upto(es, target, j - 1)
    }
}

/// The full conversion plan.
pub open spec fn convert_plan(es: Seq<FsEntry>, target: SidecarFormat) -> Seq<
    (Seq<char>, Seq<char>, Seq<u8>),
> {
    convert_plan_upto(es, target, es.len() as int)
}

/// Conversion is idempotent at the directory level: when every sidecar
/// file already carries the target format, the plan is empty and a
/// second run converts zero files.
pub proof fn lemma_convert_plan_idempotent(es: Seq<FsEntry>, target: SidecarFormat)
    requires
        forall|j: int| 0 <= j < es.len() && is_sidecar_entry(#[trigger] es[j]) ==> cur_format(
            es[j].path@) == target,
    ensures
        convert_plan(es, target).len() == 0,
{
    lemma_convert_plan_idempotent_upto(es, target, es.len() as int);
}

proof fn lemma_convert_plan_idempotent_upto(es: Seq<FsEntry>, target: SidecarFormat, j: int)
    requires
        j <= es.len(),
        forall|q: int| 0 <= q < es.len() && is_sidecar_entry(#[trigger] es[q]) ==> cur_format(
            es[q].path@) == target,
    ensures
        convert_plan_upto(es, target, j).len() == 0,
    decreases j,
{
    if j > 0 {
        lemma_convert_plan_idempotent_upto(es, target, j - 1);
    }
}

/// Every planned job renames to the target format's extension and writes
/// the target format's encoding of the decoded payload.
pub proof fn lemma_convert_plan_shape(es: Seq<FsEntry>, target: SidecarFormat, i: int)
    requires
        0 <= i < convert_plan(es, target).len(),
    ensures
        ({
            let t = convert_plan(es, target)[i];
            &&& t.1 == with_ext(t.0, target.ext_token())
            &&& SidecarFormat::from_path_spec(t.1) == Some(target)
            &&& load_val(es, t.0) matches Some(v) && t.2 == encode_spec(target, v)
        }),
{
    lemma_convert_plan_shape_upto(es, target, es.len() as int, i);
    lemma_with_ext_format(convert_plan(es, target)[i].0, target);
}

proof fn lemma_convert_plan_shape_upto(es: Seq<FsEntry>, target: SidecarFormat, j: int, i: int)
    requires
        j <= es.len(),
        0 <= i < convert_plan_upto(es, target, j).len(),
    ensures
        ({
            let t = convert_plan_upto(es, target, j)[i];
            &&& t.1 == with_ext(t.0, target.ext_token())
            &&& load_val(es, t.0) matches Some(v) && t.2 == encode_spec(target, v)
        }),
    decreases j,
{
    if j > 0 {
        if needs_convert(es, es[j - 1], target) && i == convert_plan_upto(es, target, j
            - 1).len() {
        } else {
            lemma_convert_plan_shape_upto(es, target, j - 1, i);
        }
    }
}

impl SidecarManager {
    /// Converts one sidecar file: a no-op when it already carries the
    /// target format, a re-encode under the target codec otherwise. On a
    /// conversion the caller writes the returned bytes to the returned
    /// path and then deletes the old file — write first, so an
    /// interruption never loses the payload.
    pub fn convert_sidecar_format(&self, snap: &FsSnapshot, sidecar_path: &str,
        target_format: SidecarFormat) -> (r: Result<(String, Option<Vec<u8>>), SidecarError>)
        requires
            self.wf(),
        ensures
            match r {
                Err(_) => load_val(snap.entries@, sidecar_path@) is None,
                Ok((newp, wr)) => load_val(snap.entries@, sidecar_path@) matches Some(v) && (
                if cur_format(sidecar_path@) == target_format {
                    newp@ == sidecar_path@ && wr is None
                } else {
                    newp@ == with_ext(sidecar_path@, target_format.ext_token()) && (wr matches
                        Some(b) && b@ == encode_spec(target_format, v))
                }),
            },
    {
        let entry = match snap.find_entry(sidecar_path) {
            Some(e) => e,
            None => {
                return Err(SidecarError::Io(str_to_string("sidecar file is not in the walk")));
            }
        };
        let bytes = match &entry.content {
            Some(b) => b,
            None => {
                return Err(SidecarError::Io(str_to_string("sidecar file was not readable")));
            }
        };
        let data = match self.load_bytes(sidecar_path, bytes.as_slice()) {
            Ok(v) => v,
            Err(e) => {
                return Err(e);
            }
        };
        let current = match SidecarFormat::from_path(sidecar_path) {
            Some(f) => f,
            None => SidecarFormat::Json,
        };
        if current == target_format {
            return Ok((str_to_string(sidecar_path), None));
        }
        let out = match self.format_manager.serialize_with(target_format, &data) {
            Ok(b) => b,
            Err(_) => {
                proof {
                    assert(false);
                }
                return Err(SidecarError::ProcessingError(str_to_string("unreachable")));
            }
        };
        let target_path = crate::strutil::path_with_extension(sidecar_path,
            target_format.extension());
        Ok((target_path, Some(out)))
    }

    /// Plans the conversion of a whole directory: one job per sidecar
    /// file whose format differs from the target and whose payload
    /// decodes; a file that fails to decode is skipped, never aborting
    /// the batch. The number converted is the plan's length.
    pub fn convert_directory_format(&self, snap: &FsSnapshot, target_format: SidecarFormat) -> (r:
        Vec<ConversionJob>)
        requires
            self.wf(),
        ensures
            jobs_view(r@) == convert_plan(snap.entries@, target_format),
    {
        let ghost es = snap.entries@;
        let mut out: Vec<ConversionJob> = Vec::new();
        let n = snap.entries.len();
        let mut j: usize = 0;
        while j < n
            invariant
                self.wf(),
                n == es.len(),
                es == snap.entries@,
                j <= n,
                jobs_view(out@) == convert_plan_upto(es, target_format, j as int),
            decreases n - j,
        {
            let e = &snap.entries[j];
            let mut took = false;
            if e.is_file && self.is_sidecar_file(e.path.as_str()) {
                let current = match SidecarFormat::from_path(e.path.as_str()) {
                    Some(f) => f,
                    None => SidecarFormat::Json,
                };
                if current != target_format {
                    match self.convert_sidecar_format(snap, e.path.as_str(), target_format) {
                        Ok((newp, Some(b))) => {
                            out.push(ConversionJob {
                                source_path: e.path.clone(),
                                target_path: newp,
                                bytes: b,
                            });
                            took = true;
                            proof {
                                assert(needs_convert(es, es[j as int], target_format));
                                assert(jobs_view(out@) =~= convert_plan_upto(es, target_format,
                                    j as int + 1));
                            }
                        }
                        Ok((_, None)) => {
                            proof {
                                assert(false);
                            }
                        }
                        Err(_) => {
                            proof {
                                assert(!needs_convert(es, es[j as int], target_format));
                            }
                        }
                    }
                } else {
                    proof {
                        assert(!needs_convert(es, es[j as int], target_format));
                    }
                }
            } else {
                proof {
                    assert(!needs_convert(es, es[j as int], target_format));
                }
            }
            if !took {
                proof {
                    assert(jobs_view(out@) =~= convert_plan_upto(es, target_format, j as int
                        + 1));
                }
            }
            j = j + 1;
        }
        out
    }

    /// Counts the sidecar files of each format under a root.
    pub fn get_format_statistics(&self, snap: &FsSnapshot) -> (r: Vec<(SidecarFormat, u64)>)
        requires
            self.wf(),
        ensures
            r@.len() == 3,
            r@[0].0 == SidecarFormat::Json && r@[0].1 as int == count_format(snap.entries@,
                SidecarFormat::Json, snap.entries@.len() as int),
            r@[1].0 == SidecarFormat::Binary && r@[1].1 as int == count_format(snap.entries@,
                SidecarFormat::Binary, snap.entries@.len() as int),
            r@[2].0 == SidecarFormat::Rkyv && r@[2].1 as int == count_format(snap.entries@,
                SidecarFormat::Rkyv, snap.entries@.len() as int),
    {
        let ghost es = snap.entries@;
        let mut cj: u64 = 0;
        let mut cb: u64 = 0;
        let mut cr: u64 = 0;
        let n = snap.entries.len();
        let mut j: usize = 0;
        while j < n
            invariant
                self.wf(),
                n == es.len(),
                es == snap.entries@,
                j <= n,
                cj as int == count_format(es, SidecarFormat::Json, j as int),
                cb as int == count_format(es, SidecarFormat::Binary, j as int),
                cr as int == count_format(es, SidecarFormat::Rkyv, j as int),
                cj as int <= j as int && cb as int <= j as int && cr as int <= j as int,
            decreases n - j,
        {
            let e = &snap.entries[j];
            if e.is_file && self.is_sidecar_file(e.path.as_str()) {
                let f = match SidecarFormat::from_path(e.path.as_str()) {
                    Some(f) => f,
                    None => SidecarFormat::Json,
                };
                match f {
                    SidecarFormat::Json => {
                        cj = cj + 1;
                    }
                    SidecarFormat::Binary => {
                        cb = cb + 1;
                    }
                    SidecarFormat::Rkyv => {
                        cr = cr + 1;
                    }
                }
            }
            j = j + 1;
        }
        let mut out: Vec<(SidecarFormat, u64)> = Vec::new();
        out.push((SidecarFormat::Json, cj));
        out.push((SidecarFormat::Binary, cb));
        out.push((SidecarFormat::Rkyv, cr));
        out
    }
}

/// How many sidecar files among the first `j` entries carry a format.
pub open spec fn count_format(es: Seq<FsEntry>, f: SidecarFormat, j: int) -> int
    decreases j,
{
    if j <= 0 {
        0
    } else if is_sidecar_entry(es[j - 1]) && cur_format(es[j - 1].path@) == f {
        count_format(es, f, j - 1) + 1
    } else {
        count_format(es, f, j - 1)
    }
}

proof fn lemma_pattern_scan_hit(es: Seq<FsEntry>, dir: Seq<char>, tok: Seq<char>, k: int)
    requires
        0 <= k < image_exts().len(),
        has_path(es, pattern_cand(dir, tok, image_exts()[k])),
        forall|j: int| 0 <= j < k ==> !has_path(es, pattern_cand(dir, tok, image_exts()[j])),
    ensures
        pattern_scan(es, dir, tok, 0) == Some(pattern_cand(dir, tok, image_exts()[k])),
{
    lemma_pattern_scan_from(es, dir, tok, 0, k);
}

proof fn lemma_pattern_scan_from(es: Seq<FsEntry>, dir: Seq<char>, tok: Seq<char>, i: int,
    k: int)
    requires
        0 <= i <= k < image_exts().len(),
        has_path(es, pattern_cand(dir, tok, image_exts()[k])),
        forall|j: int| 0 <= j < k ==> !has_path(es, pattern_cand(dir, tok, image_exts()[j])),
    ensures
        pattern_scan(es, dir, tok, i) == Some(pattern_cand(dir, tok, image_exts()[k])),
    decreases k - i,
{
    if i < k {
        lemma_pattern_scan_from(es, dir, tok, i + 1, k);
    }
}

proof fn lemma_pattern_scan_miss(es: Seq<FsEntry>, dir: Seq<char>, tok: Seq<char>, i: int)
    requires
        0 <= i,
        forall|j: int| 0 <= j < image_exts().len() ==> !has_path(es, pattern_cand(dir, tok,
            image_exts()[j])),
    ensures
        pattern_scan(es, dir, tok, i) is None,
    decreases image_exts().len() - i,
{
    if i < image_exts().len() {
        lemma_pattern_scan_miss(es, dir, tok, i + 1);
    }
}

proof fn lemma_detector_scan_hit(ms: Seq<(Seq<char>, Val)>, k: int)
    requires
        0 <= k < detector_map().len(),
        obj_get(ms, detector_map()[k].0) is Some,
        forall|j: int| 0 <= j < k ==> obj_get(ms, detector_map()[j].0) is None,
    ensures
        detector_scan(ms, 0) == detector_map()[k].1,
    decreases k,
{
    lemma_detector_scan_from(ms, 0, k);
}

proof fn lemma_detector_scan_from(ms: Seq<(Seq<char>, Val)>, i: int, k: int)
    requires
        0 <= i <= k < detector_map().len(),
        obj_get(ms, detector_map()[k].0) is Some,
        forall|j: int| 0 <= j < k ==> obj_get(ms, detector_map()[j].0) is None,
    ensures
        detector_scan(ms, i) == detector_map()[k].1,
    decreases k - i,
{
    if i < k {
        lemma_detector_scan_from(ms, i + 1, k);
    }
}

proof fn lemma_detector_scan_miss(ms: Seq<(Seq<char>, Val)>, i: int)
    requires
        0 <= i,
        forall|j: int| 0 <= j < detector_map().len() ==> obj_get(ms, detector_map()[j].0)
            is None,
    ensures
        detector_scan(ms, i) == OperationType::Unknown,
    decreases detector_map().len() - i,
{
    if i < detector_map().len() {
        lemma_detector_scan_miss(ms, i + 1);
    }
}

} // verus!
